use crate::crates::find_char;
use crate::crates::find_char_range;
use crate::crates::lemma_find_char;
use crate::crates::lemma_find_char_unique;
use vstd::prelude::*;
use vstd::string::StrSliceExecFns;
use vstd::string::StringExecFns;

verus! {

/// The slash-separated components of a path string, separators removed.
pub open spec fn split_slash(s: Seq<char>) -> Seq<Seq<char>>
    decreases s.len(),
{
    let p = find_char(s, '/');
    if p < 0 || p >= s.len() {
        seq![s]
    } else {
        seq![s.take(p)] + split_slash(s.skip(p + 1))
    }
}

/// The components that name directory entries: empty components and bare
/// dots fall away.
pub open spec fn clean_components(cs: Seq<Seq<char>>) -> Seq<Seq<char>>
    decreases cs.len(),
{
    if cs.len() == 0 {
        Seq::empty()
    } else {
        let rest = clean_components(cs.drop_last());
        let c = cs.last();
        if c.len() == 0 || c == "."@ {
            rest
        } else {
            rest.push(c)
        }
    }
}

/// Resolves parent references from the right: each `..` swallows the
/// nearest component on its left, and what survives is returned together
/// with the count of unmatched parent references.
pub open spec fn keep_components(cs: Seq<Seq<char>>) -> (Seq<Seq<char>>, int)
    decreases cs.len(),
{
    if cs.len() == 0 {
        (Seq::empty(), 0)
    } else {
        let r = keep_components(cs.drop_first());
        let c = cs[0];
        if c == ".."@ {
            (r.0, r.1 + 1)
        } else if r.1 > 0 {
            (r.0, r.1 - 1)
        } else {
            (seq![c] + r.0, r.1)
        }
    }
}

/// The components joined back with slashes.
pub open spec fn join_slash(cs: Seq<Seq<char>>) -> Seq<char>
    decreases cs.len(),
{
    if cs.len() == 0 {
        Seq::empty()
    } else if cs.len() == 1 {
        cs[0]
    } else {
        join_slash(cs.drop_last()) + seq!['/'] + cs.last()
    }
}

/// A source file path from the build output directory, rewritten to start
/// at the source tree root: `x/../` pairs cancel and remaining parent
/// references fall away.
pub open spec fn canonical_path(s: Seq<char>) -> Seq<char> {
    join_slash(keep_components(clean_components(split_slash(s))).0)
}

/// Whether a list of strings models a list of components, elementwise.
pub open spec fn comps_match(ss: Seq<String>, vs: Seq<Seq<char>>) -> bool {
    ss.len() == vs.len() && forall|t: int| 0 <= t < ss.len() ==> (#[trigger] ss[t])@ == vs[t]
}

/// Splits a path string at its slashes.
#[verifier::loop_isolation(false)]
fn split_path(s: &str) -> (r: Vec<String>)
    ensures
        comps_match(r@, split_slash(s@)),
{
    let n = s.unicode_len();
    let mut segs: Vec<String> = Vec::new();
    let ghost whole = split_slash(s@);
    let ghost mut done: Seq<Seq<char>> = Seq::empty();
    let mut pos: usize = 0;
    let mut finished = false;
    proof {
        assert(s@.skip(0) =~= s@);
    }
    while !finished
        invariant
            pos <= n,
            n == s@.len(),
            comps_match(segs@, done),
            !finished ==> done + split_slash(s@.skip(pos as int)) =~= whole,
            finished ==> done =~= whole,
        decreases n - pos + (if finished {
            0int
        } else {
            1int
        }),
    {
        let ghost suffix = s@.skip(pos as int);
        match find_char_range(s, pos, n, '/') {
            Some(q) => {
                let seg = s.substring_char(pos, q).to_owned();
                proof {
                    assert forall|k: int| 0 <= k < q - pos implies suffix[k] != '/' by {
                        assert(suffix[k] == s@[pos + k]);
                    }
                    assert(suffix[q - pos] == s@[q as int]);
                    lemma_find_char_unique(suffix, '/', q - pos);
                    assert(suffix.take(q - pos) =~= s@.subrange(pos as int, q as int));
                    assert(suffix.skip(q - pos + 1) =~= s@.skip(q + 1 as int));
                    assert(split_slash(suffix) == seq![suffix.take(q - pos)] + split_slash(
                        suffix.skip(q - pos + 1),
                    ));
                    done = done.push(seg@);
                    assert(done + split_slash(s@.skip(q + 1 as int)) =~= whole);
                }
                segs.push(seg);
                pos = q + 1;
            },
            None => {
                let seg = s.substring_char(pos, n).to_owned();
                proof {
                    lemma_find_char(suffix, '/');
                    if find_char(suffix, '/') >= 0 {
                        let k = find_char(suffix, '/');
                        assert(suffix[k] == s@[pos + k]);
                    }
                    assert(split_slash(suffix) == seq![suffix]);
                    assert(suffix =~= s@.subrange(pos as int, n as int));
                    done = done.push(seg@);
                    assert(done =~= whole);
                }
                segs.push(seg);
                finished = true;
            },
        }
    }
    segs
}

/// Turns a source file path, as the compiler writes it relative to the
/// build output directory, into a path from the root of the source tree.
#[verifier::loop_isolation(false)]
pub fn make_canonical_file_path(file: &str) -> (r: String)
    ensures
        r@ == canonical_path(file@),
{
    let raw = split_path(file);
    let ghost rawv = split_slash(file@);

    // Drop empty and current-directory components.
    let mut cleaned: Vec<String> = Vec::new();
    let n = raw.len();
    let mut i: usize = 0;
    proof {
        assert(rawv.take(0) =~= Seq::<Seq<char>>::empty());
    }
    while i < n
        invariant
            i <= n,
            n == raw@.len(),
            comps_match(raw@, rawv),
            comps_match(cleaned@, clean_components(rawv.take(i as int))),
        decreases n - i,
    {
        proof {
            assert(rawv.take(i + 1 as int).drop_last() =~= rawv.take(i as int));
            assert(rawv.take(i + 1 as int).last() == rawv[i as int]);
            assert(raw@[i as int]@ == rawv[i as int]);
            reveal_strlit(".");
            assert("."@ =~= seq!['.']);
        }
        let c = &raw[i];
        let keep = if c.unicode_len() == 0 {
            false
        } else if c.unicode_len() == 1 && c.as_str().get_char(0) == '.' {
            proof {
                assert(c@ =~= "."@);
            }
            false
        } else {
            proof {
                if c@ == "."@ {
                    assert(c@.len() == 1);
                    assert(c@[0] == '.');
                }
            }
            true
        };
        if keep {
            cleaned.push(c.clone());
        }
        i += 1;
    }
    proof {
        assert(rawv.take(n as int) =~= rawv);
    }
    let ghost cleanv = clean_components(rawv);

    // Cancel parent references from the right.
    let mut kept: Vec<String> = Vec::new();
    let cn = cleaned.len();
    let mut dd: usize = 0;
    let mut i2: usize = cn;
    proof {
        assert(cleanv.skip(cn as int) =~= Seq::<Seq<char>>::empty());
    }
    while i2 > 0
        invariant
            i2 <= cn,
            cn == cleaned@.len(),
            comps_match(cleaned@, cleanv),
            dd as int <= cn - i2,
            comps_match(kept@, keep_components(cleanv.skip(i2 as int)).0),
            dd as int == keep_components(cleanv.skip(i2 as int)).1,
        decreases i2,
    {
        i2 -= 1;
        proof {
            assert(cleanv.skip(i2 as int).drop_first() =~= cleanv.skip(i2 + 1 as int));
            assert(cleanv.skip(i2 as int)[0] == cleanv[i2 as int]);
            assert(cleaned@[i2 as int]@ == cleanv[i2 as int]);
            reveal_strlit("..");
            assert(".."@ =~= seq!['.', '.']);
        }
        let c = &cleaned[i2];
        let is_dotdot = c.unicode_len() == 2 && c.as_str().get_char(0) == '.' && c.as_str()
            .get_char(1) == '.';
        proof {
            if is_dotdot {
                assert(c@ =~= ".."@);
            } else {
                if c@ == ".."@ {
                    assert(c@.len() == 2);
                    assert(c@[0] == '.');
                    assert(c@[1] == '.');
                }
            }
        }
        if is_dotdot {
            dd += 1;
        } else if dd > 0 {
            dd -= 1;
        } else {
            let ghost pre_kept = kept@;
            kept.insert(0, c.clone());
            proof {
                let specnow = keep_components(cleanv.skip(i2 as int)).0;
                let specprev = keep_components(cleanv.skip(i2 + 1 as int)).0;
                assert(specnow =~= seq![cleanv[i2 as int]] + specprev);
                assert forall|t: int| 0 <= t < kept@.len() implies (#[trigger] kept@[t])@
                    == specnow[t] by {
                    if t == 0 {
                        assert(kept@[0] == *c);
                    } else {
                        assert(kept@[t] == pre_kept[t - 1]);
                        assert(pre_kept[t - 1]@ == specprev[t - 1]);
                    }
                }
            }
        }
    }
    proof {
        assert(cleanv.skip(0) =~= cleanv);
    }
    let ghost keptv = keep_components(cleanv).0;

    // Join the surviving components with slashes.
    let mut out = String::new();
    let kn = kept.len();
    let mut j: usize = 0;
    while j < kn
        invariant
            j <= kn,
            kn == kept@.len(),
            comps_match(kept@, keptv),
            out@ == join_slash(keptv.take(j as int)),
        decreases kn - j,
    {
        if j > 0 {
            out.append("/");
        }
        out.append(kept[j].as_str());
        proof {
            reveal_strlit("/");
            assert("/"@ =~= seq!['/']);
            assert(kept@[j as int]@ == keptv[j as int]);
            if j == 0 {
                assert(keptv.take(1)[0] == keptv[0]);
                assert(out@ =~= join_slash(keptv.take(1)));
            } else {
                assert(keptv.take(j + 1 as int).drop_last() =~= keptv.take(j as int));
                assert(keptv.take(j + 1 as int).last() == keptv[j as int]);
                assert(out@ =~= join_slash(keptv.take(j + 1 as int)));
            }
        }
        j += 1;
    }
    proof {
        assert(keptv.take(kn as int) =~= keptv);
    }
    out
}

} // verus!
