use crate::platforms::CfgExpr;
use crate::platforms::CfgExprV;
use crate::platforms::CfgV;
use crate::platforms::Platform;
use crate::platforms::PlatformSet;
use crate::platforms::PlatformSetV;
use crate::platforms::PlatformV;
use crate::platforms::Cfg;
use crate::platforms::exprs_view;
use crate::platforms::lemma_exprs_view;
use crate::platforms::platforms_view;
use crate::platforms::lemma_platforms_view;
use crate::text::str_eq;
use vstd::prelude::*;
use vstd::string::StringExecFns;

verus! {

/// A condition guarding a build rule: either it always applies, or it
/// applies under a boolean expression over build-system variables.
#[derive(Debug, PartialEq, Eq)]
pub enum Condition {
    Always,
    If(String),
}

/// Mathematical model of a `Condition`.
pub enum ConditionV {
    Always,
    If(Seq<char>),
}

impl View for Condition {
    type V = ConditionV;

    open spec fn view(&self) -> ConditionV {
        match self {
            Condition::Always => ConditionV::Always,
            Condition::If(s) => ConditionV::If(s@),
        }
    }
}

impl Condition {
    /// The conditional expression, if the condition is not vacuous.
    pub fn get_if(&self) -> (r: Option<&String>)
        ensures
            match r {
                Some(s) => self@ == ConditionV::If(s@),
                None => self@ is Always,
            },
    {
        match self {
            Condition::Always => None,
            Condition::If(s) => Some(s),
        }
    }
}

/// The build-system predicate for one supported configuration atom; atoms
/// outside the supported set have no rendering.
pub open spec fn atom_condition(c: CfgV) -> Seq<char> {
    match c {
        CfgV::Name(n) => if n == "windows"@ {
            "is_win"@
        } else if n == "unix"@ {
            "!is_win"@
        } else {
            arbitrary()
        },
        CfgV::KeyPair(k, v) => if k == "target_os"@ {
            if v == "android"@ {
                "is_android"@
            } else if v == "darwin"@ {
                "is_mac"@
            } else if v == "fuchsia"@ {
                "is_fuchsia"@
            } else if v == "ios"@ {
                "is_ios"@
            } else if v == "linux"@ {
                "is_linux"@
            } else if v == "windows"@ {
                "is_win"@
            } else {
                arbitrary()
            }
        } else {
            arbitrary()
        },
    }
}

/// The build-system conjunction of OS and architecture predicates for one
/// supported target triple; triples outside the allow-list have no
/// rendering.
pub open spec fn triple_condition(n: Seq<char>) -> Seq<char> {
    if n == "i686-linux-android"@ {
        "is_android && target_cpu == \"x86\""@
    } else if n == "x86_64-linux-android"@ {
        "is_android && target_cpu == \"x64\""@
    } else if n == "armv7-linux-android"@ {
        "is_android && target_cpu == \"arm\""@
    } else if n == "aarch64-linux-android"@ {
        "is_android && target_cpu == \"arm64\""@
    } else if n == "aarch64-fuchsia"@ {
        "is_fuchsia && target_cpu == \"arm64\""@
    } else if n == "x86_64-fuchsia"@ {
        "is_fuchsia && target_cpu == \"x64\""@
    } else if n == "aarch64-apple-ios"@ {
        "is_ios && target_cpu == \"arm64\""@
    } else if n == "armv7-apple-ios"@ {
        "is_ios && target_cpu == \"arm\""@
    } else if n == "x86_64-apple-ios"@ {
        "is_ios && target_cpu == \"x64\""@
    } else if n == "i386-apple-ios"@ {
        "is_ios && target_cpu == \"x86\""@
    } else if n == "i686-pc-windows-msvc"@ {
        "is_win && target_cpu == \"x86\""@
    } else if n == "x86_64-pc-windows-msvc"@ {
        "is_win && target_cpu == \"x64\""@
    } else if n == "i686-unknown-linux-gnu"@ {
        "is_linux && target_cpu == \"x86\""@
    } else if n == "x86_64-unknown-linux-gnu"@ {
        "is_linux && target_cpu == \"x64\""@
    } else if n == "x86_64-apple-darwin"@ {
        "is_mac && target_cpu == \"x64\""@
    } else if n == "aarch64-apple-darwin"@ {
        "is_mac && target_cpu == \"arm64\""@
    } else {
        arbitrary()
    }
}

/// The build-system expression for a cfg expression: atoms map to
/// predicates, negation wraps in `!(...)`, and conjunctions and
/// disjunctions join their parenthesized terms.
pub open spec fn cfg_condition(e: CfgExprV) -> Seq<char>
    decreases e, 1int,
{
    match e {
        CfgExprV::Not(sub) => "!("@ + cfg_condition(*sub) + ")"@,
        CfgExprV::All(subs) => join_terms(subs, " && "@),
        CfgExprV::Any(subs) => join_terms(subs, " || "@),
        CfgExprV::Value(a) => atom_condition(a),
    }
}

/// Joins the parenthesized renderings of the expressions with a separator.
pub open spec fn join_terms(es: Seq<CfgExprV>, sep: Seq<char>) -> Seq<char>
    decreases es, 0int,
{
    if es.len() == 0 {
        Seq::empty()
    } else if es.len() == 1 {
        "("@ + cfg_condition(es[0]) + ")"@
    } else {
        join_terms(es.drop_last(), sep) + sep + "("@ + cfg_condition(es.last()) + ")"@
    }
}

/// The build-system expression for one platform filter, parenthesized.
pub open spec fn platform_condition(p: PlatformV) -> Seq<char> {
    match p {
        PlatformV::Name(n) => "("@ + triple_condition(n) + ")"@,
        PlatformV::Cfg(e) => "("@ + cfg_condition(e) + ")"@,
    }
}

/// The joined condition of a finite platform collection, in its stable
/// stored order.
pub open spec fn platforms_condition(ps: Seq<PlatformV>) -> Seq<char>
    decreases ps.len(),
{
    if ps.len() == 0 {
        Seq::empty()
    } else if ps.len() == 1 {
        platform_condition(ps[0])
    } else {
        platforms_condition(ps.drop_last()) + " || "@ + platform_condition(ps.last())
    }
}

/// The condition of a whole platform set: every platform is no condition at
/// all, and a finite collection is the disjunction of its filters.
pub open spec fn set_condition(ps: PlatformSetV) -> ConditionV {
    match ps {
        PlatformSetV::All => ConditionV::Always,
        PlatformSetV::Platforms(v) => ConditionV::If(platforms_condition(v)),
    }
}

/// Renders the predicate of one supported configuration atom.
fn render_atom(c: &Cfg) -> (r: String)
    requires
        crate::platforms::supported_cfg(c@),
    ensures
        r@ == atom_condition(c@),
{
    match c {
        Cfg::Name(n) => {
            if str_eq(n.as_str(), "windows") {
                let s = String::from_str("is_win");
                s
            } else {
                let s = String::from_str("!is_win");
                s
            }
        },
        Cfg::KeyPair(_k, v) => {
            if str_eq(v.as_str(), "android") {
                String::from_str("is_android")
            } else if str_eq(v.as_str(), "darwin") {
                String::from_str("is_mac")
            } else if str_eq(v.as_str(), "fuchsia") {
                String::from_str("is_fuchsia")
            } else if str_eq(v.as_str(), "ios") {
                String::from_str("is_ios")
            } else if str_eq(v.as_str(), "linux") {
                String::from_str("is_linux")
            } else {
                String::from_str("is_win")
            }
        },
    }
}

/// Every atom of the expression is supported.
pub open spec fn only_supported_atoms(e: CfgExprV) -> bool
    decreases e, 1int,
{
    match e {
        CfgExprV::Not(sub) => only_supported_atoms(*sub),
        CfgExprV::All(subs) => all_supported_atoms(subs),
        CfgExprV::Any(subs) => all_supported_atoms(subs),
        CfgExprV::Value(a) => crate::platforms::supported_cfg(a),
    }
}

/// Every atom of every expression of the sequence is supported.
pub open spec fn all_supported_atoms(es: Seq<CfgExprV>) -> bool
    decreases es, 0int,
{
    if es.len() == 0 {
        true
    } else {
        all_supported_atoms(es.drop_last()) && only_supported_atoms(es.last())
    }
}

/// Whatever the simplification of a cfg expression keeps is free of
/// unsupported atoms.
pub proof fn lemma_filter_only_supported(e: CfgExprV)
    ensures
        crate::platforms::filter_expr_spec(e) matches crate::platforms::SimplifiedExpr::Valid(r)
            ==> only_supported_atoms(r),
    decreases e, 1int,
{
    match e {
        CfgExprV::Not(sub) => {
            lemma_filter_only_supported(*sub);
        },
        CfgExprV::All(subs) => {
            lemma_filter_kept_supported(subs);
            let kept = crate::platforms::filter_kept(subs);
            if !crate::platforms::some_filters_false(subs) && kept.len() == 1 {
                lemma_all_supported_atoms(kept);
            }
        },
        CfgExprV::Any(subs) => {
            lemma_filter_kept_supported(subs);
            let kept = crate::platforms::filter_kept(subs);
            if !crate::platforms::some_filters_true(subs) && kept.len() == 1 {
                lemma_all_supported_atoms(kept);
            }
        },
        CfgExprV::Value(_a) => {},
    }
}

/// Every kept subexpression is free of unsupported atoms.
proof fn lemma_filter_kept_supported(es: Seq<CfgExprV>)
    ensures
        all_supported_atoms(crate::platforms::filter_kept(es)),
    decreases es, 0int,
{
    if es.len() > 0 {
        let dl = es.drop_last();
        lemma_filter_kept_supported(dl);
        lemma_filter_only_supported(es.last());
        match crate::platforms::filter_expr_spec(es.last()) {
            crate::platforms::SimplifiedExpr::Valid(r) => {
                let whole = crate::platforms::filter_kept(dl).push(r);
                assert(whole.drop_last() =~= crate::platforms::filter_kept(dl));
                assert(whole.last() == r);
            },
            _ => {},
        }
    } else {
        assert(crate::platforms::filter_kept(es) == Seq::<CfgExprV>::empty());
    }
}

/// A platform filter that matches some supported target is renderable after
/// the unsupported-term rewrite.
pub proof fn lemma_filtered_platform_renderable(p: PlatformV)
    requires
        crate::platforms::platform_matches_supported(p),
    ensures
        crate::platforms::filter_platform_spec(p) matches Some(q) ==> match q {
            PlatformV::Name(n) => crate::platforms::supported_triple(n),
            PlatformV::Cfg(e) => only_supported_atoms(e),
        },
{
    match p {
        PlatformV::Name(_n) => {},
        PlatformV::Cfg(e) => {
            crate::platforms::lemma_matching_filter_not_always_false(e);
            lemma_filter_only_supported(e);
        },
    }
}

/// Renders the build-system expression of a cfg expression whose atoms are
/// all supported.
#[verifier::loop_isolation(false)]
fn render_cfg_expr(e: &CfgExpr, out: &mut String)
    requires
        only_supported_atoms(e@),
    ensures
        final(out)@ == old(out)@ + cfg_condition(e@),
    decreases *e,
{
    match e {
        CfgExpr::Not(sub) => {
            out.append("!(");
            render_cfg_expr(sub, out);
            out.append(")");
            proof {
                reveal_strlit("!(");
                reveal_strlit(")");
                assert("!("@ =~= seq!['!', '(']);
                assert(")"@ =~= seq![')']);
                assert(old(out)@ + cfg_condition(e@) =~= old(out)@ + "!("@ + cfg_condition(
                    (*sub)@,
                ) + ")"@);
            }
        },
        CfgExpr::All(subs) => {
            render_join(subs, " && ", out);
            proof {
                lemma_exprs_view(subs@);
                assert(cfg_condition(e@) == join_terms(exprs_view(subs@), " && "@));
            }
        },
        CfgExpr::Any(subs) => {
            render_join(subs, " || ", out);
            proof {
                lemma_exprs_view(subs@);
                assert(cfg_condition(e@) == join_terms(exprs_view(subs@), " || "@));
            }
        },
        CfgExpr::Value(a) => {
            let s = render_atom(a);
            out.append(s.as_str());
        },
    }
}

/// One step of `join_terms` from the left-to-right point of view.
proof fn lemma_join_terms_step(es: Seq<CfgExprV>, sep: Seq<char>, t: int)
    requires
        1 <= t < es.len(),
    ensures
        join_terms(es.take(t + 1), sep) == join_terms(es.take(t), sep) + sep + "("@
            + cfg_condition(es[t]) + ")"@,
{
    assert(es.take(t + 1).drop_last() =~= es.take(t));
    assert(es.take(t + 1).last() == es[t]);
    assert(es.take(t + 1).len() == t + 1);
}

/// The supportedness of atoms restricts to every element.
proof fn lemma_all_supported_atoms(es: Seq<CfgExprV>)
    requires
        all_supported_atoms(es),
    ensures
        forall|k: int| 0 <= k < es.len() ==> only_supported_atoms(#[trigger] es[k]),
    decreases es.len(),
{
    if es.len() > 0 {
        lemma_all_supported_atoms(es.drop_last());
        assert forall|k: int| 0 <= k < es.len() implies only_supported_atoms(
            #[trigger] es[k],
        ) by {
            if k < es.len() - 1 {
                assert(es.drop_last()[k] == es[k]);
            } else {
                assert(es[k] == es.last());
            }
        }
    }
}

/// Renders the joined parenthesized terms of a conjunction or disjunction.
#[verifier::loop_isolation(false)]
fn render_join(subs: &Vec<CfgExpr>, sep: &str, out: &mut String)
    requires
        all_supported_atoms(exprs_view(subs@)),
    ensures
        final(out)@ == old(out)@ + join_terms(exprs_view(subs@), sep@),
    decreases subs,
{
    let ghost vs = exprs_view(subs@);
    proof {
        lemma_exprs_view(subs@);
        lemma_all_supported_atoms(vs);
    }
    let n = subs.len();
    if n == 0 {
        proof {
            assert(old(out)@ + join_terms(vs, sep@) =~= old(out)@);
        }
        return ;
    }
    let mut j: usize = 0;
    while j < n
        invariant
            j <= n,
            n >= 1,
            out@ == old(out)@ + (if j == 0 {
                Seq::<char>::empty()
            } else {
                join_terms(vs.take(j as int), sep@)
            }),
        decreases n - j,
    {
        if j > 0 {
            out.append(sep);
        }
        out.append("(");
        render_cfg_expr(&subs[j], out);
        out.append(")");
        proof {
            reveal_strlit("(");
            reveal_strlit(")");
            assert("("@ =~= seq!['(']);
            assert(")"@ =~= seq![')']);
            assert(vs[j as int] == subs@[j as int]@);
            if j == 0 {
                assert(vs.take(1) =~= seq![vs[0]]);
                assert(seq![vs[0]][0] == vs[0]);
                assert(join_terms(vs.take(1), sep@) == "("@ + cfg_condition(vs[0]) + ")"@);
                assert(out@ =~= old(out)@ + join_terms(vs.take(1), sep@));
            } else {
                lemma_join_terms_step(vs, sep@, j as int);
                assert(out@ =~= old(out)@ + join_terms(vs.take(j + 1 as int), sep@));
            }
        }
        j += 1;
    }
    proof {
        assert(vs.take(n as int) =~= vs);
    }
}

/// Renders the build-system condition of one platform filter, whose cfg
/// atoms must all be supported.
pub fn condition_for_platform(p: &Platform) -> (r: String)
    requires
        p@ matches PlatformV::Cfg(e) ==> only_supported_atoms(e),
        p@ matches PlatformV::Name(n) ==> crate::platforms::supported_triple(n),
    ensures
        r@ == platform_condition(p@),
{
    let mut out = String::new();
    out.append("(");
    match p {
        Platform::Name(n) => {
            let t = render_triple(n.as_str());
            out.append(t.as_str());
        },
        Platform::Cfg(e) => {
            render_cfg_expr(e, &mut out);
        },
    }
    out.append(")");
    proof {
        reveal_strlit("(");
        reveal_strlit(")");
        assert("("@ =~= seq!['(']);
        assert(")"@ =~= seq![')']);
        assert(out@ =~= platform_condition(p@));
    }
    out
}

/// Renders the conjunction of predicates for one supported target triple.
fn render_triple(n: &str) -> (r: String)
    ensures
        crate::platforms::supported_triple(n@) ==> r@ == triple_condition(n@),
{
    if str_eq(n, "i686-linux-android") {
        String::from_str("is_android && target_cpu == \"x86\"")
    } else if str_eq(n, "x86_64-linux-android") {
        String::from_str("is_android && target_cpu == \"x64\"")
    } else if str_eq(n, "armv7-linux-android") {
        String::from_str("is_android && target_cpu == \"arm\"")
    } else if str_eq(n, "aarch64-linux-android") {
        String::from_str("is_android && target_cpu == \"arm64\"")
    } else if str_eq(n, "aarch64-fuchsia") {
        String::from_str("is_fuchsia && target_cpu == \"arm64\"")
    } else if str_eq(n, "x86_64-fuchsia") {
        String::from_str("is_fuchsia && target_cpu == \"x64\"")
    } else if str_eq(n, "aarch64-apple-ios") {
        String::from_str("is_ios && target_cpu == \"arm64\"")
    } else if str_eq(n, "armv7-apple-ios") {
        String::from_str("is_ios && target_cpu == \"arm\"")
    } else if str_eq(n, "x86_64-apple-ios") {
        String::from_str("is_ios && target_cpu == \"x64\"")
    } else if str_eq(n, "i386-apple-ios") {
        String::from_str("is_ios && target_cpu == \"x86\"")
    } else if str_eq(n, "i686-pc-windows-msvc") {
        String::from_str("is_win && target_cpu == \"x86\"")
    } else if str_eq(n, "x86_64-pc-windows-msvc") {
        String::from_str("is_win && target_cpu == \"x64\"")
    } else if str_eq(n, "i686-unknown-linux-gnu") {
        String::from_str("is_linux && target_cpu == \"x86\"")
    } else if str_eq(n, "x86_64-unknown-linux-gnu") {
        String::from_str("is_linux && target_cpu == \"x64\"")
    } else if str_eq(n, "x86_64-apple-darwin") {
        String::from_str("is_mac && target_cpu == \"x64\"")
    } else if str_eq(n, "aarch64-apple-darwin") {
        String::from_str("is_mac && target_cpu == \"arm64\"")
    } else {
        String::new()
    }
}

/// Every filter of the sequence is either a named triple from the
/// allow-list or a cfg expression over supported atoms.
pub open spec fn renderable_platforms(ps: Seq<PlatformV>) -> bool {
    forall|k: int| 0 <= k < ps.len() ==> match #[trigger] ps[k] {
        PlatformV::Name(n) => crate::platforms::supported_triple(n),
        PlatformV::Cfg(e) => only_supported_atoms(e),
    }
}

impl Condition {
    /// The conditional expression guarding a rule limited to a platform
    /// set: no condition for every platform, else the disjunction of the
    /// set's filters in its stable order.
    #[verifier::loop_isolation(false)]
    pub fn from_platform_set(ps: &PlatformSet) -> (r: Condition)
        requires
            ps@ matches PlatformSetV::Platforms(v) ==> renderable_platforms(v),
        ensures
            r@ == set_condition(ps@),
    {
        match ps {
            PlatformSet::All => Condition::Always,
            PlatformSet::Platforms(list) => {
                let ghost vs = platforms_view(list@);
                proof {
                    lemma_platforms_view(list@);
                }
                let mut out = String::new();
                let n = list.len();
                let mut j: usize = 0;
                while j < n
                    invariant
                        j <= n,
                        n == list@.len(),
                        out@ == platforms_condition(vs.take(j as int)),
                    decreases n - j,
                {
                    if j > 0 {
                        out.append(" || ");
                    }
                    let c = condition_for_platform(&list[j]);
                    out.append(c.as_str());
                    proof {
                        reveal_strlit(" || ");
                        assert(" || "@ =~= seq![' ', '|', '|', ' ']);
                        assert(vs[j as int] == list@[j as int]@);
                        if j == 0 {
                            assert(vs.take(1)[0] == vs[0]);
                            assert(out@ =~= platforms_condition(vs.take(1)));
                        } else {
                            assert(vs.take(j + 1 as int).drop_last() =~= vs.take(j as int));
                            assert(vs.take(j + 1 as int).last() == vs[j as int]);
                            assert(out@ =~= platforms_condition(vs.take(j + 1 as int)));
                        }
                    }
                    j += 1;
                }
                proof {
                    assert(vs.take(n as int) =~= vs);
                }
                Condition::If(out)
            },
        }
    }
}

} // verus!
