use crate::text::str_eq;
use vstd::prelude::*;
use vstd::string::StrSliceExecFns;
use vstd::string::StringExecFns;

verus! {

/// A single configuration atom as it appears in a `cfg(...)` expression:
/// either a bare name such as `unix`, or a `key = "value"` pair such as
/// `target_os = "linux"`.
#[derive(Clone, Debug, PartialEq, Eq)]
pub enum Cfg {
    Name(String),
    KeyPair(String, String),
}

/// Mathematical model of a `Cfg`.
pub enum CfgV {
    Name(Seq<char>),
    KeyPair(Seq<char>, Seq<char>),
}

impl View for Cfg {
    type V = CfgV;

    open spec fn view(&self) -> CfgV {
        match self {
            Cfg::Name(n) => CfgV::Name(n@),
            Cfg::KeyPair(k, v) => CfgV::KeyPair(k@, v@),
        }
    }
}

/// A boolean expression over configuration atoms, as written inside
/// `cfg(...)` filters on dependency edges.
#[derive(Debug, PartialEq, Eq)]
pub enum CfgExpr {
    Not(Box<CfgExpr>),
    All(Vec<CfgExpr>),
    Any(Vec<CfgExpr>),
    Value(Cfg),
}

/// Mathematical model of a `CfgExpr`.
pub enum CfgExprV {
    Not(Box<CfgExprV>),
    All(Seq<CfgExprV>),
    Any(Seq<CfgExprV>),
    Value(CfgV),
}

impl View for CfgExpr {
    type V = CfgExprV;

    open spec fn view(&self) -> CfgExprV
        decreases self, 1int,
    {
        match self {
            CfgExpr::Not(e) => CfgExprV::Not(Box::new((**e)@)),
            CfgExpr::All(es) => CfgExprV::All(exprs_view(es@)),
            CfgExpr::Any(es) => CfgExprV::Any(exprs_view(es@)),
            CfgExpr::Value(c) => CfgExprV::Value(c@),
        }
    }
}

/// The models of a sequence of cfg expressions, elementwise.
pub open spec fn exprs_view(es: Seq<CfgExpr>) -> Seq<CfgExprV>
    decreases es, 0int,
{
    if es.len() == 0 {
        Seq::empty()
    } else {
        exprs_view(es.drop_last()).push(es.last()@)
    }
}

/// `exprs_view` maps each element to its model, preserving length.
pub proof fn lemma_exprs_view(es: Seq<CfgExpr>)
    ensures
        exprs_view(es).len() == es.len(),
        forall|i: int| 0 <= i < es.len() ==> exprs_view(es)[i] == #[trigger] es[i]@,
    decreases es.len(),
{
    if es.len() > 0 {
        lemma_exprs_view(es.drop_last());
        assert(exprs_view(es) == exprs_view(es.drop_last()).push(es.last()@));
        assert forall|i: int| 0 <= i < es.len() implies exprs_view(es)[i] == #[trigger] es[i]@ by {
            if i < es.len() - 1 {
                assert(exprs_view(es)[i] == exprs_view(es.drop_last())[i]);
                assert(es.drop_last()[i] == es[i]);
            }
        }
    } else {
        assert(exprs_view(es) == Seq::<CfgExprV>::empty());
    }
}

/// Appending one expression extends the modelled sequence by its model.
pub proof fn lemma_exprs_view_push(es: Seq<CfgExpr>, e: CfgExpr)
    ensures
        exprs_view(es.push(e)) == exprs_view(es).push(e@),
{
    assert(es.push(e).drop_last() =~= es);
    assert(es.push(e).last() == e);
}

/// Evaluate a cfg expression under an environment holding exactly one
/// enabled atom, the way a dependency filter is tested against one target
/// configuration at a time.
pub open spec fn eval_expr(e: CfgExprV, c: CfgV) -> bool
    decreases e, 1int,
{
    match e {
        CfgExprV::Not(sub) => !eval_expr(*sub, c),
        CfgExprV::All(subs) => eval_all(subs, c),
        CfgExprV::Any(subs) => eval_any(subs, c),
        CfgExprV::Value(a) => a == c,
    }
}

/// Every expression of the sequence holds under the atom `c`.
pub open spec fn eval_all(es: Seq<CfgExprV>, c: CfgV) -> bool
    decreases es, 0int,
{
    if es.len() == 0 {
        true
    } else {
        eval_all(es.drop_last(), c) && eval_expr(es.last(), c)
    }
}

/// Some expression of the sequence holds under the atom `c`.
pub open spec fn eval_any(es: Seq<CfgExprV>, c: CfgV) -> bool
    decreases es, 0int,
{
    if es.len() == 0 {
        false
    } else {
        eval_any(es.drop_last(), c) || eval_expr(es.last(), c)
    }
}

/// `eval_all` is the elementwise conjunction.
pub proof fn lemma_eval_all(es: Seq<CfgExprV>, c: CfgV)
    ensures
        eval_all(es, c) <==> (forall|i: int| 0 <= i < es.len() ==> eval_expr(#[trigger] es[i], c)),
    decreases es.len(),
{
    if es.len() > 0 {
        lemma_eval_all(es.drop_last(), c);
        if eval_all(es, c) {
            assert forall|i: int| 0 <= i < es.len() implies eval_expr(#[trigger] es[i], c) by {
                if i < es.len() - 1 {
                    assert(es.drop_last()[i] == es[i]);
                    assert(eval_expr(es.drop_last()[i], c));
                } else {
                    assert(es[i] == es.last());
                }
            }
        }
        if forall|i: int| 0 <= i < es.len() ==> eval_expr(#[trigger] es[i], c) {
            assert forall|i: int| 0 <= i < es.drop_last().len() implies eval_expr(
                #[trigger] es.drop_last()[i],
                c,
            ) by {
                assert(es.drop_last()[i] == es[i]);
            }
            assert(es[es.len() - 1] == es.last());
            assert(eval_expr(es.last(), c));
        }
    }
}

/// `eval_any` is the elementwise disjunction.
pub proof fn lemma_eval_any(es: Seq<CfgExprV>, c: CfgV)
    ensures
        eval_any(es, c) <==> (exists|i: int| 0 <= i < es.len() && eval_expr(#[trigger] es[i], c)),
    decreases es.len(),
{
    if es.len() > 0 {
        lemma_eval_any(es.drop_last(), c);
        if eval_any(es, c) {
            if eval_any(es.drop_last(), c) {
                let i = choose|i: int|
                    0 <= i < es.drop_last().len() && eval_expr(#[trigger] es.drop_last()[i], c);
                assert(es.drop_last()[i] == es[i]);
                assert(eval_expr(es[i], c));
            } else {
                assert(es[es.len() - 1] == es.last());
                assert(eval_expr(es[es.len() - 1], c));
            }
        }
        if exists|i: int| 0 <= i < es.len() && eval_expr(#[trigger] es[i], c) {
            let i = choose|i: int| 0 <= i < es.len() && eval_expr(#[trigger] es[i], c);
            if i < es.len() - 1 {
                assert(es.drop_last()[i] == es[i]);
                assert(eval_any(es.drop_last(), c));
            } else {
                assert(es[i] == es.last());
            }
        }
    }
}

/// A platform filter on a dependency edge: either an explicit rustc target
/// triple, or a `cfg(...)` expression.
#[derive(Debug, PartialEq, Eq)]
pub enum Platform {
    Name(String),
    Cfg(CfgExpr),
}

/// Mathematical model of a `Platform`.
pub enum PlatformV {
    Name(Seq<char>),
    Cfg(CfgExprV),
}

impl View for Platform {
    type V = PlatformV;

    open spec fn view(&self) -> PlatformV {
        match self {
            Platform::Name(n) => PlatformV::Name(n@),
            Platform::Cfg(e) => PlatformV::Cfg(e@),
        }
    }
}

/// The configuration atoms that correspond to a supported operating system:
/// `target_os = "..."` for each supported OS, plus the bare `unix` and
/// `windows` forms.
pub open spec fn supported_cfg(c: CfgV) -> bool {
    match c {
        CfgV::Name(n) => n == "unix"@ || n == "windows"@,
        CfgV::KeyPair(k, v) => k == "target_os"@ && (v == "android"@ || v == "darwin"@
            || v == "fuchsia"@ || v == "ios"@ || v == "linux"@ || v == "windows"@),
    }
}

/// The fixed allow-list of explicitly supported target triples.
pub open spec fn supported_triple(n: Seq<char>) -> bool {
    ||| n == "i686-linux-android"@
    ||| n == "x86_64-linux-android"@
    ||| n == "armv7-linux-android"@
    ||| n == "aarch64-linux-android"@
    ||| n == "aarch64-fuchsia"@
    ||| n == "x86_64-fuchsia"@
    ||| n == "aarch64-apple-ios"@
    ||| n == "armv7-apple-ios"@
    ||| n == "x86_64-apple-ios"@
    ||| n == "i386-apple-ios"@
    ||| n == "i686-pc-windows-msvc"@
    ||| n == "x86_64-pc-windows-msvc"@
    ||| n == "i686-unknown-linux-gnu"@
    ||| n == "x86_64-unknown-linux-gnu"@
    ||| n == "x86_64-apple-darwin"@
    ||| n == "aarch64-apple-darwin"@
}

/// Whether a platform filter matches at least one supported build target: a
/// named triple must be in the allow-list, and a cfg expression must hold
/// under at least one supported configuration atom.
pub open spec fn platform_matches_supported(p: PlatformV) -> bool {
    match p {
        PlatformV::Name(n) => supported_triple(n),
        PlatformV::Cfg(e) => exists|c: CfgV| supported_cfg(c) && eval_expr(e, c),
    }
}

/// Executable test of `supported_cfg`.
fn cfg_is_supported(c: &Cfg) -> (r: bool)
    ensures
        r == supported_cfg(c@),
{
    match c {
        Cfg::Name(n) => str_eq(n.as_str(), "unix") || str_eq(n.as_str(), "windows"),
        Cfg::KeyPair(k, v) => str_eq(k.as_str(), "target_os") && (str_eq(v.as_str(), "android")
            || str_eq(v.as_str(), "darwin") || str_eq(v.as_str(), "fuchsia") || str_eq(
            v.as_str(),
            "ios",
        ) || str_eq(v.as_str(), "linux") || str_eq(v.as_str(), "windows")),
    }
}

/// Executable equality of two configuration atoms, in terms of their models.
fn cfg_eq(a: &Cfg, b: &Cfg) -> (r: bool)
    ensures
        r == (a@ == b@),
{
    match (a, b) {
        (Cfg::Name(x), Cfg::Name(y)) => str_eq(x.as_str(), y.as_str()),
        (Cfg::KeyPair(xk, xv), Cfg::KeyPair(yk, yv)) => str_eq(xk.as_str(), yk.as_str()) && str_eq(
            xv.as_str(),
            yv.as_str(),
        ),
        _ => false,
    }
}

/// Executable evaluation of a cfg expression against a single enabled atom.
#[verifier::loop_isolation(false)]
fn eval_cfg_expr(e: &CfgExpr, c: &Cfg) -> (r: bool)
    ensures
        r == eval_expr(e@, c@),
    decreases *e,
{
    match e {
        CfgExpr::Not(sub) => !eval_cfg_expr(sub, c),
        CfgExpr::All(subs) => {
            let ghost vsubs = e@->All_0;
            proof {
                lemma_exprs_view(subs@);
                lemma_eval_all(vsubs, c@);
            }
            let n = subs.len();
            let mut j: usize = 0;
            while j < n
                invariant
                    j <= n,
                    forall|k: int| 0 <= k < j ==> eval_expr(#[trigger] vsubs[k], c@),
                decreases n - j,
            {
                proof {
                    assert(vsubs[j as int] == subs@[j as int]@);
                }
                if !eval_cfg_expr(&subs[j], c) {
                    return false;
                }
                j += 1;
            }
            true
        },
        CfgExpr::Any(subs) => {
            let ghost vsubs = e@->Any_0;
            proof {
                lemma_exprs_view(subs@);
                lemma_eval_any(vsubs, c@);
            }
            let n = subs.len();
            let mut j: usize = 0;
            while j < n
                invariant
                    j <= n,
                    forall|k: int| 0 <= k < j ==> !eval_expr(#[trigger] vsubs[k], c@),
                decreases n - j,
            {
                proof {
                    assert(vsubs[j as int] == subs@[j as int]@);
                }
                if eval_cfg_expr(&subs[j], c) {
                    return true;
                }
                j += 1;
            }
            false
        },
        CfgExpr::Value(a) => cfg_eq(a, c),
    }
}

/// Deep copy of a configuration atom.
pub fn clone_cfg(c: &Cfg) -> (r: Cfg)
    ensures
        r@ == c@,
{
    match c {
        Cfg::Name(n) => Cfg::Name(n.clone()),
        Cfg::KeyPair(k, v) => Cfg::KeyPair(k.clone(), v.clone()),
    }
}

/// Deep copy of a cfg expression, preserving its model.
#[verifier::loop_isolation(false)]
pub fn clone_cfg_expr(e: &CfgExpr) -> (r: CfgExpr)
    ensures
        r@ == e@,
    decreases *e,
{
    match e {
        CfgExpr::Not(sub) => CfgExpr::Not(Box::new(clone_cfg_expr(sub))),
        CfgExpr::All(subs) => {
            let mut out: Vec<CfgExpr> = Vec::new();
            let n = subs.len();
            let mut j: usize = 0;
            while j < n
                invariant
                    j <= n,
                    out@.len() == j,
                    exprs_view(out@) =~= exprs_view(subs@).take(j as int),
                decreases n - j,
            {
                proof {
                    lemma_exprs_view(subs@);
                    lemma_exprs_view(out@);
                }
                let c = clone_cfg_expr(&subs[j]);
                proof {
                    lemma_exprs_view_push(out@, c);
                    assert(exprs_view(subs@).take(j + 1 as int) =~= exprs_view(subs@).take(
                        j as int,
                    ).push(exprs_view(subs@)[j as int]));
                }
                out.push(c);
                j += 1;
            }
            proof {
                lemma_exprs_view(subs@);
                assert(exprs_view(subs@).take(n as int) =~= exprs_view(subs@));
            }
            CfgExpr::All(out)
        },
        CfgExpr::Any(subs) => {
            let mut out: Vec<CfgExpr> = Vec::new();
            let n = subs.len();
            let mut j: usize = 0;
            while j < n
                invariant
                    j <= n,
                    out@.len() == j,
                    exprs_view(out@) =~= exprs_view(subs@).take(j as int),
                decreases n - j,
            {
                proof {
                    lemma_exprs_view(subs@);
                    lemma_exprs_view(out@);
                }
                let c = clone_cfg_expr(&subs[j]);
                proof {
                    lemma_exprs_view_push(out@, c);
                    assert(exprs_view(subs@).take(j + 1 as int) =~= exprs_view(subs@).take(
                        j as int,
                    ).push(exprs_view(subs@)[j as int]));
                }
                out.push(c);
                j += 1;
            }
            proof {
                lemma_exprs_view(subs@);
                assert(exprs_view(subs@).take(n as int) =~= exprs_view(subs@));
            }
            CfgExpr::Any(out)
        },
        CfgExpr::Value(c) => CfgExpr::Value(clone_cfg(c)),
    }
}

/// Deep copy of a platform filter, preserving its model.
pub fn clone_platform(p: &Platform) -> (r: Platform)
    ensures
        r@ == p@,
{
    match p {
        Platform::Name(n) => Platform::Name(n.clone()),
        Platform::Cfg(e) => Platform::Cfg(clone_cfg_expr(e)),
    }
}

/// Executable structural equality of cfg expressions, in terms of models.
#[verifier::loop_isolation(false)]
pub fn cfg_expr_eq(a: &CfgExpr, b: &CfgExpr) -> (r: bool)
    ensures
        r == (a@ == b@),
    decreases *a,
{
    match (a, b) {
        (CfgExpr::Not(x), CfgExpr::Not(y)) => cfg_expr_eq(x, y),
        (CfgExpr::All(xs), CfgExpr::All(ys)) => {
            proof {
                lemma_exprs_view(xs@);
                lemma_exprs_view(ys@);
            }
            if xs.len() != ys.len() {
                return false;
            }
            let n = xs.len();
            let mut j: usize = 0;
            while j < n
                invariant
                    j <= n,
                    forall|k: int| 0 <= k < j ==> exprs_view(xs@)[k] == exprs_view(ys@)[k],
                decreases n - j,
            {
                if !cfg_expr_eq(&xs[j], &ys[j]) {
                    return false;
                }
                j += 1;
            }
            proof {
                assert(exprs_view(xs@) =~= exprs_view(ys@));
            }
            true
        },
        (CfgExpr::Any(xs), CfgExpr::Any(ys)) => {
            proof {
                lemma_exprs_view(xs@);
                lemma_exprs_view(ys@);
            }
            if xs.len() != ys.len() {
                return false;
            }
            let n = xs.len();
            let mut j: usize = 0;
            while j < n
                invariant
                    j <= n,
                    forall|k: int| 0 <= k < j ==> exprs_view(xs@)[k] == exprs_view(ys@)[k],
                decreases n - j,
            {
                if !cfg_expr_eq(&xs[j], &ys[j]) {
                    return false;
                }
                j += 1;
            }
            proof {
                assert(exprs_view(xs@) =~= exprs_view(ys@));
            }
            true
        },
        (CfgExpr::Value(x), CfgExpr::Value(y)) => cfg_eq(x, y),
        _ => false,
    }
}

/// Executable structural equality of platform filters, in terms of models.
pub fn platform_eq(a: &Platform, b: &Platform) -> (r: bool)
    ensures
        r == (a@ == b@),
{
    match (a, b) {
        (Platform::Name(x), Platform::Name(y)) => str_eq(x.as_str(), y.as_str()),
        (Platform::Cfg(x), Platform::Cfg(y)) => cfg_expr_eq(x, y),
        _ => false,
    }
}

/// Whether a platform filter, either an explicit rustc target triple or a
/// `cfg(...)` expression, matches any supported build target.
pub fn matches_supported_target(platform: &Platform) -> (r: bool)
    ensures
        r == platform_matches_supported(platform@),
{
    match platform {
        Platform::Name(name) => {
            let n = name.as_str();
            str_eq(n, "i686-linux-android") || str_eq(n, "x86_64-linux-android") || str_eq(
                n,
                "armv7-linux-android",
            ) || str_eq(n, "aarch64-linux-android") || str_eq(n, "aarch64-fuchsia") || str_eq(
                n,
                "x86_64-fuchsia",
            ) || str_eq(n, "aarch64-apple-ios") || str_eq(n, "armv7-apple-ios") || str_eq(
                n,
                "x86_64-apple-ios",
            ) || str_eq(n, "i386-apple-ios") || str_eq(n, "i686-pc-windows-msvc") || str_eq(
                n,
                "x86_64-pc-windows-msvc",
            ) || str_eq(n, "i686-unknown-linux-gnu") || str_eq(n, "x86_64-unknown-linux-gnu")
                || str_eq(n, "x86_64-apple-darwin") || str_eq(n, "aarch64-apple-darwin")
        },
        Platform::Cfg(e) => {
            let mut found = false;
            let atoms = supported_os_cfgs();
            let n = atoms.len();
            let mut j: usize = 0;
            while j < n
                invariant
                    j <= n,
                    n == atoms@.len(),
                    forall|k: int| 0 <= k < n ==> supported_cfg(#[trigger] atoms@[k]@),
                    forall|c: CfgV| supported_cfg(c) ==> exists|k: int|
                        0 <= k < n && #[trigger] atoms@[k]@ == c,
                    found <==> exists|k: int| 0 <= k < j && eval_expr(e@, #[trigger] atoms@[k]@),
                decreases n - j,
            {
                if eval_cfg_expr(e, &atoms[j]) {
                    proof {
                        assert(eval_expr(e@, atoms@[j as int]@));
                    }
                    found = true;
                }
                j += 1;
            }
            proof {
                if found {
                    let k = choose|k: int| 0 <= k < n && eval_expr(e@, #[trigger] atoms@[k]@);
                    assert(supported_cfg(atoms@[k]@) && eval_expr(e@, atoms@[k]@));
                } else {
                    if platform_matches_supported(platform@) {
                        let c = choose|c: CfgV| supported_cfg(c) && eval_expr(e@, c);
                        let k = choose|k: int| 0 <= k < n && #[trigger] atoms@[k]@ == c;
                        assert(eval_expr(e@, atoms@[k]@));
                    }
                }
            }
            found
        },
    }
}

/// Outcome of simplifying a cfg expression against the supported platforms:
/// either a rewritten expression free of unsupported atoms, or the
/// observation that the expression is constant on every supported platform.
#[derive(Debug, PartialEq, Eq)]
pub enum FilterOutcome {
    Valid(CfgExpr),
    AlwaysTrue,
    AlwaysFalse,
}

/// Mathematical model of a `FilterOutcome`.
pub enum SimplifiedExpr {
    Valid(CfgExprV),
    AlwaysTrue,
    AlwaysFalse,
}

impl View for FilterOutcome {
    type V = SimplifiedExpr;

    open spec fn view(&self) -> SimplifiedExpr {
        match self {
            FilterOutcome::Valid(e) => SimplifiedExpr::Valid(e@),
            FilterOutcome::AlwaysTrue => SimplifiedExpr::AlwaysTrue,
            FilterOutcome::AlwaysFalse => SimplifiedExpr::AlwaysFalse,
        }
    }
}

/// The three-valued simplification of a cfg expression against the supported
/// atoms: an unsupported atom is false on every supported platform, `not`
/// flips the constants, `all` drops always-true terms and is false when some
/// term always is, `any` dually; a conjunction or disjunction left with a
/// single term unwraps to that term.
pub open spec fn filter_expr_spec(e: CfgExprV) -> SimplifiedExpr
    decreases e, 3int,
{
    match e {
        CfgExprV::Not(sub) => match filter_expr_spec(*sub) {
            SimplifiedExpr::Valid(r) => SimplifiedExpr::Valid(CfgExprV::Not(Box::new(r))),
            SimplifiedExpr::AlwaysTrue => SimplifiedExpr::AlwaysFalse,
            SimplifiedExpr::AlwaysFalse => SimplifiedExpr::AlwaysTrue,
        },
        CfgExprV::All(subs) => {
            if some_filters_false(subs) {
                SimplifiedExpr::AlwaysFalse
            } else {
                let kept = filter_kept(subs);
                if kept.len() == 0 {
                    SimplifiedExpr::AlwaysTrue
                } else if kept.len() == 1 {
                    SimplifiedExpr::Valid(kept[0])
                } else {
                    SimplifiedExpr::Valid(CfgExprV::All(kept))
                }
            }
        },
        CfgExprV::Any(subs) => {
            if some_filters_true(subs) {
                SimplifiedExpr::AlwaysTrue
            } else {
                let kept = filter_kept(subs);
                if kept.len() == 0 {
                    SimplifiedExpr::AlwaysFalse
                } else if kept.len() == 1 {
                    SimplifiedExpr::Valid(kept[0])
                } else {
                    SimplifiedExpr::Valid(CfgExprV::Any(kept))
                }
            }
        },
        CfgExprV::Value(a) => if supported_cfg(a) {
            SimplifiedExpr::Valid(CfgExprV::Value(a))
        } else {
            SimplifiedExpr::AlwaysFalse
        },
    }
}

/// Some expression of the sequence simplifies to always-false.
pub open spec fn some_filters_false(es: Seq<CfgExprV>) -> bool
    decreases es, 1int,
{
    if es.len() == 0 {
        false
    } else {
        some_filters_false(es.drop_last()) || filter_expr_spec(es.last()) is AlwaysFalse
    }
}

/// Some expression of the sequence simplifies to always-true.
pub open spec fn some_filters_true(es: Seq<CfgExprV>) -> bool
    decreases es, 1int,
{
    if es.len() == 0 {
        false
    } else {
        some_filters_true(es.drop_last()) || filter_expr_spec(es.last()) is AlwaysTrue
    }
}

/// The subexpressions that survive simplification, in order: those whose own
/// simplification is a rewritten (non-constant) expression.
pub open spec fn filter_kept(es: Seq<CfgExprV>) -> Seq<CfgExprV>
    decreases es, 0int,
{
    if es.len() == 0 {
        Seq::empty()
    } else {
        let rest = filter_kept(es.drop_last());
        match filter_expr_spec(es.last()) {
            SimplifiedExpr::Valid(r) => rest.push(r),
            _ => rest,
        }
    }
}

/// `some_filters_false` is the elementwise disjunction it stands for.
pub proof fn lemma_some_filters_false(es: Seq<CfgExprV>)
    ensures
        some_filters_false(es) <==> (exists|i: int|
            0 <= i < es.len() && filter_expr_spec(#[trigger] es[i]) is AlwaysFalse),
    decreases es.len(),
{
    if es.len() > 0 {
        lemma_some_filters_false(es.drop_last());
        if some_filters_false(es) {
            if some_filters_false(es.drop_last()) {
                let i = choose|i: int|
                    0 <= i < es.drop_last().len() && filter_expr_spec(
                        #[trigger] es.drop_last()[i],
                    ) is AlwaysFalse;
                assert(es.drop_last()[i] == es[i]);
                assert(filter_expr_spec(es[i]) is AlwaysFalse);
            } else {
                assert(es[es.len() - 1] == es.last());
                assert(filter_expr_spec(es[es.len() - 1]) is AlwaysFalse);
            }
        }
        if exists|i: int| 0 <= i < es.len() && filter_expr_spec(#[trigger] es[i]) is AlwaysFalse {
            let i = choose|i: int|
                0 <= i < es.len() && filter_expr_spec(#[trigger] es[i]) is AlwaysFalse;
            if i < es.len() - 1 {
                assert(es.drop_last()[i] == es[i]);
            } else {
                assert(es[i] == es.last());
            }
        }
    }
}

/// `some_filters_true` is the elementwise disjunction it stands for.
pub proof fn lemma_some_filters_true(es: Seq<CfgExprV>)
    ensures
        some_filters_true(es) <==> (exists|i: int|
            0 <= i < es.len() && filter_expr_spec(#[trigger] es[i]) is AlwaysTrue),
    decreases es.len(),
{
    if es.len() > 0 {
        lemma_some_filters_true(es.drop_last());
        if some_filters_true(es) {
            if some_filters_true(es.drop_last()) {
                let i = choose|i: int|
                    0 <= i < es.drop_last().len() && filter_expr_spec(
                        #[trigger] es.drop_last()[i],
                    ) is AlwaysTrue;
                assert(es.drop_last()[i] == es[i]);
                assert(filter_expr_spec(es[i]) is AlwaysTrue);
            } else {
                assert(es[es.len() - 1] == es.last());
                assert(filter_expr_spec(es[es.len() - 1]) is AlwaysTrue);
            }
        }
        if exists|i: int| 0 <= i < es.len() && filter_expr_spec(#[trigger] es[i]) is AlwaysTrue {
            let i = choose|i: int|
                0 <= i < es.len() && filter_expr_spec(#[trigger] es[i]) is AlwaysTrue;
            if i < es.len() - 1 {
                assert(es.drop_last()[i] == es[i]);
            } else {
                assert(es[i] == es.last());
            }
        }
    }
}

/// One step of `filter_kept` from the left-to-right point of view.
pub proof fn lemma_filter_kept_step(es: Seq<CfgExprV>, i: int)
    requires
        0 <= i < es.len(),
    ensures
        filter_kept(es.take(i + 1)) == match filter_expr_spec(es[i]) {
            SimplifiedExpr::Valid(r) => filter_kept(es.take(i)).push(r),
            _ => filter_kept(es.take(i)),
        },
{
    assert(es.take(i + 1).drop_last() =~= es.take(i));
    assert(es.take(i + 1).last() == es[i]);
    assert(es.take(i + 1).len() == i + 1);
}

/// One step of `some_filters_false` from the left-to-right point of view.
pub proof fn lemma_some_filters_false_step(es: Seq<CfgExprV>, i: int)
    requires
        0 <= i < es.len(),
    ensures
        some_filters_false(es.take(i + 1)) == (some_filters_false(es.take(i)) || filter_expr_spec(
            es[i],
        ) is AlwaysFalse),
{
    assert(es.take(i + 1).drop_last() =~= es.take(i));
    assert(es.take(i + 1).last() == es[i]);
    assert(es.take(i + 1).len() == i + 1);
}

/// One step of `some_filters_true` from the left-to-right point of view.
pub proof fn lemma_some_filters_true_step(es: Seq<CfgExprV>, i: int)
    requires
        0 <= i < es.len(),
    ensures
        some_filters_true(es.take(i + 1)) == (some_filters_true(es.take(i)) || filter_expr_spec(
            es[i],
        ) is AlwaysTrue),
{
    assert(es.take(i + 1).drop_last() =~= es.take(i));
    assert(es.take(i + 1).last() == es[i]);
    assert(es.take(i + 1).len() == i + 1);
}

/// Rewrites a cfg expression to exclude unsupported atoms, following
/// `filter_expr_spec`.
#[verifier::loop_isolation(false)]
pub fn filter_cfg_expr(e: CfgExpr) -> (r: FilterOutcome)
    ensures
        r@ == filter_expr_spec(e@),
    decreases e,
{
    let ghost e0 = e;
    match e {
        CfgExpr::Not(sub) => match filter_cfg_expr(*sub) {
            FilterOutcome::Valid(r) => FilterOutcome::Valid(CfgExpr::Not(Box::new(r))),
            FilterOutcome::AlwaysTrue => FilterOutcome::AlwaysFalse,
            FilterOutcome::AlwaysFalse => FilterOutcome::AlwaysTrue,
        },
        CfgExpr::All(mut subs) => {
            let ghost osubs = subs@;
            let ghost ov = exprs_view(osubs);
            proof {
                lemma_exprs_view(osubs);
            }
            let mut kept: Vec<CfgExpr> = Vec::new();
            let mut always_false = false;
            let n = subs.len();
            let mut i: usize = 0;
            while i < n
                invariant
                    i <= n,
                    n == osubs.len(),
                    subs@ =~= osubs.skip(i as int),
                    exprs_view(kept@) =~= filter_kept(ov.take(i as int)),
                    always_false == some_filters_false(ov.take(i as int)),
                decreases n - i,
            {
                let x = subs.remove(0);
                proof {
                    assert(x == osubs[i as int]);
                    assert(osubs.skip(i as int).remove(0) =~= osubs.skip(i + 1 as int));
                    assert(x@ == ov[i as int]);
                    assert(decreases_to!(e0 => e0->All_0));
                    assert(decreases_to!(e0->All_0 => e0->All_0@));
                    assert(decreases_to!(e0->All_0@ => e0->All_0@[i as int]));
                    lemma_filter_kept_step(ov, i as int);
                    lemma_some_filters_false_step(ov, i as int);
                }
                match filter_cfg_expr(x) {
                    FilterOutcome::Valid(r) => {
                        proof {
                            lemma_exprs_view_push(kept@, r);
                        }
                        kept.push(r);
                    },
                    FilterOutcome::AlwaysTrue => {},
                    FilterOutcome::AlwaysFalse => {
                        always_false = true;
                    },
                }
                i += 1;
            }
            proof {
                assert(ov.take(n as int) =~= ov);
                lemma_exprs_view(kept@);
            }
            if always_false {
                FilterOutcome::AlwaysFalse
            } else if kept.len() == 0 {
                FilterOutcome::AlwaysTrue
            } else if kept.len() == 1 {
                let single = kept.remove(0);
                proof {
                    assert(single@ == filter_kept(ov)[0]);
                }
                FilterOutcome::Valid(single)
            } else {
                FilterOutcome::Valid(CfgExpr::All(kept))
            }
        },
        CfgExpr::Any(mut subs) => {
            let ghost osubs = subs@;
            let ghost ov = exprs_view(osubs);
            proof {
                lemma_exprs_view(osubs);
            }
            let mut kept: Vec<CfgExpr> = Vec::new();
            let mut always_true = false;
            let n = subs.len();
            let mut i: usize = 0;
            while i < n
                invariant
                    i <= n,
                    n == osubs.len(),
                    subs@ =~= osubs.skip(i as int),
                    exprs_view(kept@) =~= filter_kept(ov.take(i as int)),
                    always_true == some_filters_true(ov.take(i as int)),
                decreases n - i,
            {
                let x = subs.remove(0);
                proof {
                    assert(x == osubs[i as int]);
                    assert(osubs.skip(i as int).remove(0) =~= osubs.skip(i + 1 as int));
                    assert(x@ == ov[i as int]);
                    assert(decreases_to!(e0 => e0->Any_0));
                    assert(decreases_to!(e0->Any_0 => e0->Any_0@));
                    assert(decreases_to!(e0->Any_0@ => e0->Any_0@[i as int]));
                    lemma_filter_kept_step(ov, i as int);
                    lemma_some_filters_true_step(ov, i as int);
                }
                match filter_cfg_expr(x) {
                    FilterOutcome::Valid(r) => {
                        proof {
                            lemma_exprs_view_push(kept@, r);
                        }
                        kept.push(r);
                    },
                    FilterOutcome::AlwaysFalse => {},
                    FilterOutcome::AlwaysTrue => {
                        always_true = true;
                    },
                }
                i += 1;
            }
            proof {
                assert(ov.take(n as int) =~= ov);
                lemma_exprs_view(kept@);
            }
            if always_true {
                FilterOutcome::AlwaysTrue
            } else if kept.len() == 0 {
                FilterOutcome::AlwaysFalse
            } else if kept.len() == 1 {
                let single = kept.remove(0);
                proof {
                    assert(single@ == filter_kept(ov)[0]);
                }
                FilterOutcome::Valid(single)
            } else {
                FilterOutcome::Valid(CfgExpr::Any(kept))
            }
        },
        CfgExpr::Value(c) => {
            if cfg_is_supported(&c) {
                FilterOutcome::Valid(CfgExpr::Value(c))
            } else {
                FilterOutcome::AlwaysFalse
            }
        },
    }
}

/// The kept subexpressions are equivalent to the originals, as a conjunction
/// when no original simplifies to always-false, and as a disjunction when no
/// original simplifies to always-true.
proof fn lemma_filter_kept_eval(es: Seq<CfgExprV>, c: CfgV)
    requires
        supported_cfg(c),
    ensures
        !some_filters_false(es) ==> (eval_all(filter_kept(es), c) == eval_all(es, c)),
        !some_filters_true(es) ==> (eval_any(filter_kept(es), c) == eval_any(es, c)),
    decreases es, 0int,
{
    if es.len() == 0 {
        assert(filter_kept(es) == Seq::<CfgExprV>::empty());
    } else {
        let dl = es.drop_last();
        let last = es.last();
        lemma_filter_kept_eval(dl, c);
        lemma_filter_preserves_eval(last, c);
        match filter_expr_spec(last) {
            SimplifiedExpr::Valid(r) => {
                assert(filter_kept(es) == filter_kept(dl).push(r));
                assert(filter_kept(dl).push(r).drop_last() =~= filter_kept(dl));
                assert(filter_kept(dl).push(r).last() == r);
            },
            SimplifiedExpr::AlwaysTrue => {
                assert(filter_kept(es) == filter_kept(dl));
            },
            SimplifiedExpr::AlwaysFalse => {
                assert(filter_kept(es) == filter_kept(dl));
            },
        }
    }
}

/// The simplification of a cfg expression is logically equivalent to the
/// original on every supported configuration atom: a rewritten expression
/// evaluates identically there, and the always-true and always-false
/// outcomes report the expression's constant value there.
pub proof fn lemma_filter_preserves_eval(e: CfgExprV, c: CfgV)
    requires
        supported_cfg(c),
    ensures
        match filter_expr_spec(e) {
            SimplifiedExpr::Valid(r) => eval_expr(r, c) == eval_expr(e, c),
            SimplifiedExpr::AlwaysTrue => eval_expr(e, c),
            SimplifiedExpr::AlwaysFalse => !eval_expr(e, c),
        },
    decreases e, 1int,
{
    match e {
        CfgExprV::Not(sub) => {
            lemma_filter_preserves_eval(*sub, c);
        },
        CfgExprV::All(subs) => {
            lemma_filter_kept_eval(subs, c);
            assert(eval_expr(e, c) == eval_all(subs, c));
            if some_filters_false(subs) {
                lemma_some_filters_false(subs);
                let i = choose|i: int|
                    0 <= i < subs.len() && filter_expr_spec(#[trigger] subs[i]) is AlwaysFalse;
                lemma_filter_preserves_eval(subs[i], c);
                assert(!eval_expr(subs[i], c));
                lemma_eval_all(subs, c);
                assert(!eval_all(subs, c));
            } else {
                let kept = filter_kept(subs);
                assert(eval_all(kept, c) == eval_all(subs, c));
                if kept.len() == 0 {
                    assert(eval_all(kept, c));
                } else if kept.len() == 1 {
                    assert(eval_all(kept, c) == eval_expr(kept[0], c)) by {
                        lemma_eval_all(kept, c);
                        if eval_expr(kept[0], c) {
                            assert forall|i: int| 0 <= i < kept.len() implies eval_expr(
                                #[trigger] kept[i],
                                c,
                            ) by {
                                assert(i == 0);
                            }
                        }
                    }
                } else {
                    assert(eval_expr(CfgExprV::All(kept), c) == eval_all(kept, c));
                }
            }
        },
        CfgExprV::Any(subs) => {
            lemma_filter_kept_eval(subs, c);
            assert(eval_expr(e, c) == eval_any(subs, c));
            if some_filters_true(subs) {
                lemma_some_filters_true(subs);
                let i = choose|i: int|
                    0 <= i < subs.len() && filter_expr_spec(#[trigger] subs[i]) is AlwaysTrue;
                lemma_filter_preserves_eval(subs[i], c);
                assert(eval_expr(subs[i], c));
                lemma_eval_any(subs, c);
                assert(eval_any(subs, c));
            } else {
                let kept = filter_kept(subs);
                assert(eval_any(kept, c) == eval_any(subs, c));
                if kept.len() == 0 {
                    assert(!eval_any(kept, c));
                } else if kept.len() == 1 {
                    assert(eval_any(kept, c) == eval_expr(kept[0], c)) by {
                        lemma_eval_any(kept, c);
                        if eval_any(kept, c) {
                            let i = choose|i: int|
                                0 <= i < kept.len() && eval_expr(#[trigger] kept[i], c);
                            assert(i == 0);
                        }
                        if eval_expr(kept[0], c) {
                            assert(exists|i: int|
                                0 <= i < kept.len() && eval_expr(#[trigger] kept[i], c));
                        }
                    }
                } else {
                    assert(eval_expr(CfgExprV::Any(kept), c) == eval_any(kept, c));
                }
            }
        },
        CfgExprV::Value(a) => {},
    }
}

/// A cfg expression that holds somewhere on the supported platforms never
/// simplifies to always-false.
pub proof fn lemma_matching_filter_not_always_false(e: CfgExprV)
    requires
        exists|c: CfgV| supported_cfg(c) && eval_expr(e, c),
    ensures
        !(filter_expr_spec(e) is AlwaysFalse),
{
    let c = choose|c: CfgV| supported_cfg(c) && eval_expr(e, c);
    lemma_filter_preserves_eval(e, c);
}

/// The rewrite of a whole platform filter: a named triple is kept as is; a
/// cfg expression is simplified, where an always-true simplification means
/// the filter is unconditional on the supported platforms.
pub open spec fn filter_platform_spec(p: PlatformV) -> Option<PlatformV> {
    match p {
        PlatformV::Name(n) => Some(PlatformV::Name(n)),
        PlatformV::Cfg(e) => match filter_expr_spec(e) {
            SimplifiedExpr::Valid(r) => Some(PlatformV::Cfg(r)),
            SimplifiedExpr::AlwaysTrue => None,
            SimplifiedExpr::AlwaysFalse => arbitrary(),
        },
    }
}

/// Removes terms naming unsupported platforms from `platform`, which must
/// match some supported target; `None` means the rewritten filter would be
/// true on every supported platform.
pub fn filter_unsupported_platform_terms(platform: Platform) -> (r: Option<Platform>)
    requires
        platform_matches_supported(platform@),
    ensures
        match r {
            Some(q) => filter_platform_spec(platform@) == Some(q@),
            None => filter_platform_spec(platform@) is None,
        },
{
    match platform {
        Platform::Name(n) => Some(Platform::Name(n)),
        Platform::Cfg(e) => {
            proof {
                lemma_matching_filter_not_always_false(e@);
            }
            match filter_cfg_expr(e) {
                FilterOutcome::Valid(r) => Some(Platform::Cfg(r)),
                FilterOutcome::AlwaysTrue => None,
                FilterOutcome::AlwaysFalse => unreached(),
            }
        },
    }
}

/// The supported configuration atoms, materialized: one `target_os` pair for
/// each supported operating system, plus the `unix` and `windows` names.
fn supported_os_cfgs() -> (r: Vec<Cfg>)
    ensures
        forall|k: int| 0 <= k < r@.len() ==> supported_cfg(#[trigger] r@[k]@),
        forall|c: CfgV| supported_cfg(c) ==> exists|k: int|
            0 <= k < r@.len() && #[trigger] r@[k]@ == c,
{
    let mut out: Vec<Cfg> = Vec::new();
    out.push(Cfg::KeyPair(String::from_str("target_os"), String::from_str("android")));
    out.push(Cfg::KeyPair(String::from_str("target_os"), String::from_str("darwin")));
    out.push(Cfg::KeyPair(String::from_str("target_os"), String::from_str("fuchsia")));
    out.push(Cfg::KeyPair(String::from_str("target_os"), String::from_str("ios")));
    out.push(Cfg::KeyPair(String::from_str("target_os"), String::from_str("linux")));
    out.push(Cfg::KeyPair(String::from_str("target_os"), String::from_str("windows")));
    out.push(Cfg::Name(String::from_str("unix")));
    out.push(Cfg::Name(String::from_str("windows")));
    proof {
        assert forall|c: CfgV| supported_cfg(c) implies exists|k: int|
            0 <= k < out@.len() && #[trigger] out@[k]@ == c by {
            match c {
                CfgV::Name(nm) => {
                    if nm == "unix"@ {
                        assert(out@[6]@ == c);
                    } else {
                        assert(out@[7]@ == c);
                    }
                },
                CfgV::KeyPair(k0, v0) => {
                    if v0 == "android"@ {
                        assert(out@[0]@ == c);
                    } else if v0 == "darwin"@ {
                        assert(out@[1]@ == c);
                    } else if v0 == "fuchsia"@ {
                        assert(out@[2]@ == c);
                    } else if v0 == "ios"@ {
                        assert(out@[3]@ == c);
                    } else if v0 == "linux"@ {
                        assert(out@[4]@ == c);
                    } else {
                        assert(out@[5]@ == c);
                    }
                },
            }
        }
    }
    out
}

/// The supported configuration atoms, exposed for tests.
pub fn supported_os_cfgs_for_testing() -> (r: Vec<Cfg>)
    ensures
        forall|k: int| 0 <= k < r@.len() ==> supported_cfg(#[trigger] r@[k]@),
        forall|c: CfgV| supported_cfg(c) ==> exists|k: int|
            0 <= k < r@.len() && #[trigger] r@[k]@ == c,
{
    supported_os_cfgs()
}

/// The names of the supported target triples, exposed for tests.
pub fn supported_named_platforms_for_testing() -> (r: Vec<String>)
    ensures
        forall|k: int| 0 <= k < r@.len() ==> supported_triple(#[trigger] r@[k]@),
        forall|n: Seq<char>| supported_triple(n) ==> exists|k: int|
            0 <= k < r@.len() && #[trigger] r@[k]@ == n,
{
    let mut out: Vec<String> = Vec::new();
    out.push(String::from_str("i686-linux-android"));
    out.push(String::from_str("x86_64-linux-android"));
    out.push(String::from_str("armv7-linux-android"));
    out.push(String::from_str("aarch64-linux-android"));
    out.push(String::from_str("aarch64-fuchsia"));
    out.push(String::from_str("x86_64-fuchsia"));
    out.push(String::from_str("aarch64-apple-ios"));
    out.push(String::from_str("armv7-apple-ios"));
    out.push(String::from_str("x86_64-apple-ios"));
    out.push(String::from_str("i386-apple-ios"));
    out.push(String::from_str("i686-pc-windows-msvc"));
    out.push(String::from_str("x86_64-pc-windows-msvc"));
    out.push(String::from_str("i686-unknown-linux-gnu"));
    out.push(String::from_str("x86_64-unknown-linux-gnu"));
    out.push(String::from_str("x86_64-apple-darwin"));
    out.push(String::from_str("aarch64-apple-darwin"));
    proof {
        assert forall|n: Seq<char>| supported_triple(n) implies exists|k: int|
            0 <= k < out@.len() && #[trigger] out@[k]@ == n by {
            if n == "i686-linux-android"@ {
                assert(out@[0]@ == n);
            } else if n == "x86_64-linux-android"@ {
                assert(out@[1]@ == n);
            } else if n == "armv7-linux-android"@ {
                assert(out@[2]@ == n);
            } else if n == "aarch64-linux-android"@ {
                assert(out@[3]@ == n);
            } else if n == "aarch64-fuchsia"@ {
                assert(out@[4]@ == n);
            } else if n == "x86_64-fuchsia"@ {
                assert(out@[5]@ == n);
            } else if n == "aarch64-apple-ios"@ {
                assert(out@[6]@ == n);
            } else if n == "armv7-apple-ios"@ {
                assert(out@[7]@ == n);
            } else if n == "x86_64-apple-ios"@ {
                assert(out@[8]@ == n);
            } else if n == "i386-apple-ios"@ {
                assert(out@[9]@ == n);
            } else if n == "i686-pc-windows-msvc"@ {
                assert(out@[10]@ == n);
            } else if n == "x86_64-pc-windows-msvc"@ {
                assert(out@[11]@ == n);
            } else if n == "i686-unknown-linux-gnu"@ {
                assert(out@[12]@ == n);
            } else if n == "x86_64-unknown-linux-gnu"@ {
                assert(out@[13]@ == n);
            } else if n == "x86_64-apple-darwin"@ {
                assert(out@[14]@ == n);
            } else {
                assert(out@[15]@ == n);
            }
        }
    }
    out
}

/// A set of platforms: either every platform, or a finite, duplicate-free,
/// order-stable collection of platform filters.
#[derive(Debug)]
pub enum PlatformSet {
    All,
    Platforms(Vec<Platform>),
}

/// Mathematical model of a `PlatformSet`.
pub enum PlatformSetV {
    All,
    Platforms(Seq<PlatformV>),
}

/// The models of a sequence of platform filters, elementwise.
pub open spec fn platforms_view(ps: Seq<Platform>) -> Seq<PlatformV>
    decreases ps.len(),
{
    if ps.len() == 0 {
        Seq::empty()
    } else {
        platforms_view(ps.drop_last()).push(ps.last()@)
    }
}

/// `platforms_view` maps each element to its model, preserving length.
pub proof fn lemma_platforms_view(ps: Seq<Platform>)
    ensures
        platforms_view(ps).len() == ps.len(),
        forall|i: int| 0 <= i < ps.len() ==> platforms_view(ps)[i] == #[trigger] ps[i]@,
    decreases ps.len(),
{
    if ps.len() > 0 {
        lemma_platforms_view(ps.drop_last());
        assert(platforms_view(ps) == platforms_view(ps.drop_last()).push(ps.last()@));
        assert forall|i: int| 0 <= i < ps.len() implies platforms_view(ps)[i] == #[trigger] ps[i]@
        by {
            if i < ps.len() - 1 {
                assert(platforms_view(ps)[i] == platforms_view(ps.drop_last())[i]);
                assert(ps.drop_last()[i] == ps[i]);
            }
        }
    } else {
        assert(platforms_view(ps) == Seq::<PlatformV>::empty());
    }
}

/// Appending one filter extends the modelled sequence by its model.
pub proof fn lemma_platforms_view_push(ps: Seq<Platform>, p: Platform)
    ensures
        platforms_view(ps.push(p)) == platforms_view(ps).push(p@),
{
    assert(ps.push(p).drop_last() =~= ps);
    assert(ps.push(p).last() == p);
}

impl View for PlatformSet {
    type V = PlatformSetV;

    open spec fn view(&self) -> PlatformSetV {
        match self {
            PlatformSet::All => PlatformSetV::All,
            PlatformSet::Platforms(v) => PlatformSetV::Platforms(platforms_view(v@)),
        }
    }
}

/// Membership of a platform filter in a modelled collection.
pub open spec fn contains_platform(s: Seq<PlatformV>, p: PlatformV) -> bool {
    exists|i: int| 0 <= i < s.len() && s[i] == p
}

impl PlatformSet {
    /// A finite collection holds no filter twice.
    pub open spec fn wf(self) -> bool {
        match self {
            PlatformSet::All => true,
            PlatformSet::Platforms(v) => forall|i: int, j: int|
                0 <= i < j < platforms_view(v@).len() ==> platforms_view(v@)[i] != platforms_view(
                    v@,
                )[j],
        }
    }

    /// A `PlatformSet` that matches no platforms, the starting point for
    /// accumulation with `add`.
    pub fn empty() -> (r: PlatformSet)
        ensures
            r@ == PlatformSetV::Platforms(Seq::<PlatformV>::empty()),
            r.wf(),
    {
        let r = PlatformSet::Platforms(Vec::new());
        proof {
            assert(platforms_view(Seq::<Platform>::empty()) == Seq::<PlatformV>::empty());
        }
        r
    }

    /// A `PlatformSet` that matches one platform filter, where no filter at
    /// all means every platform.
    pub fn one(filter: Option<Platform>) -> (r: PlatformSet)
        ensures
            filter is None ==> r@ == PlatformSetV::All,
            filter matches Some(p) ==> r@ == PlatformSetV::Platforms(seq![p@]),
            r.wf(),
    {
        let mut ps = PlatformSet::empty();
        ps.add(filter);
        proof {
            assert(Seq::<PlatformV>::empty().len() == 0);
        }
        ps
    }

    /// Adds one platform filter; the result is a superset of the original.
    /// Adding no filter at all collapses the set to every platform, and a
    /// filter already present is not added twice.
    pub fn add(&mut self, filter: Option<Platform>)
        ensures
            old(self)@ is All ==> final(self)@ == old(self)@,
            old(self)@ is Platforms && filter is None ==> final(self)@ == PlatformSetV::All,
            old(self)@ matches PlatformSetV::Platforms(s) ==> (filter matches Some(p)
                ==> final(self)@ == (if contains_platform(s, p@) {
                old(self)@
            } else {
                PlatformSetV::Platforms(s.push(p@))
            })),
            old(self).wf() ==> final(self).wf(),
    {
        let set = match self {
            PlatformSet::All => {
                return ;
            },
            PlatformSet::Platforms(set) => set,
        };
        match filter {
            None => {
                *self = PlatformSet::All;
            },
            Some(platform) => {
                let ghost s = platforms_view(set@);
                proof {
                    lemma_platforms_view(set@);
                }
                let n = set.len();
                let mut i: usize = 0;
                let mut present = false;
                while i < n
                    invariant
                        i <= n,
                        n == set@.len(),
                        s == platforms_view(set@),
                        s.len() == n,
                        forall|k: int| 0 <= k < n ==> s[k] == #[trigger] set@[k]@,
                        present <==> exists|k: int| 0 <= k < i && s[k] == platform@,
                    decreases n - i,
                {
                    if platform_eq(&set[i], &platform) {
                        proof {
                            assert(s[i as int] == platform@);
                        }
                        present = true;
                    }
                    i += 1;
                }
                if !present {
                    proof {
                        lemma_platforms_view_push(set@, platform);
                    }
                    set.push(platform);
                }
            },
        }
    }
}

} // verus!
