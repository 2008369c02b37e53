//! Path handling: splitting a byte path on `/` and canonicalizing the
//! segments against a base directory, without ever escaping the sandbox
//! root.

use vstd::prelude::*;

verus! {

/// The segments of `p` split on `/`: `split_segs("a/b")` is `["a", "b"]`,
/// and empty segments are kept (`"a//b"` holds one in the middle).
pub open spec fn split_segs(p: Seq<u8>) -> Seq<Seq<u8>>
    decreases p.len(),
{
    if p.len() == 0 {
        seq![Seq::<u8>::empty()]
    } else if p[0] == 47 {
        seq![Seq::<u8>::empty()] + split_segs(p.subrange(1, p.len() as int))
    } else {
        let rest = split_segs(p.subrange(1, p.len() as int));
        seq![seq![p[0]] + rest[0]] + rest.subrange(1, rest.len() as int)
    }
}

pub proof fn lemma_split_segs_len(p: Seq<u8>)
    ensures
        split_segs(p).len() >= 1,
    decreases p.len(),
{
    if p.len() > 0 {
        lemma_split_segs_len(p.subrange(1, p.len() as int));
    }
}

/// Split a byte path on `/`.
pub fn split_path(p: &[u8]) -> (r: Vec<Vec<u8>>)
    ensures
        r.deep_view() == split_segs(p@),
{
    let n = p.len();
    let mut done: Vec<Vec<u8>> = Vec::new();
    let mut cur: Vec<u8> = Vec::new();
    let mut i: usize = 0;
    proof {
        lemma_split_segs_len(p@);
        assert(p@.subrange(0, n as int) =~= p@);
        let rest = split_segs(p@);
        assert(done.deep_view() =~~= Seq::<Seq<u8>>::empty());
        assert(cur@ + rest[0] =~= rest[0]);
        assert(done.deep_view() + (seq![cur@ + rest[0]] + rest.subrange(1, rest.len() as int))
            =~~= rest);
    }
    while i < n
        invariant
            n == p@.len(),
            i <= n,
            split_segs(p@) =~~= {
                let rest = split_segs(p@.subrange(i as int, n as int));
                done.deep_view() + (seq![cur@ + rest[0]] + rest.subrange(1, rest.len() as int))
            },
        decreases n - i,
    {
        proof {
            lemma_split_segs_len(p@.subrange(i as int, n as int));
            lemma_split_segs_len(p@.subrange(i + 1, n as int));
            assert(p@.subrange(i as int, n as int).subrange(
                1,
                p@.subrange(i as int, n as int).len() as int,
            ) =~= p@.subrange(i + 1, n as int));
        }
        let ghost pre_done = done.deep_view();
        let ghost pre_cur = cur@;
        if p[i] == 47 {
            done.push(cur);
            cur = Vec::new();
            proof {
                assert(done.deep_view() =~~= pre_done.push(pre_cur));
                let rest = split_segs(p@.subrange(i + 1, n as int));
                assert(split_segs(p@.subrange(i as int, n as int)) =~= seq![Seq::<u8>::empty()]
                    + rest);
                assert(pre_cur + Seq::<u8>::empty() =~= pre_cur);
                assert(split_segs(p@) =~~= {
                    done.deep_view() + (seq![cur@ + rest[0]] + rest.subrange(1, rest.len() as int))
                });
            }
        } else {
            cur.push(p[i]);
            proof {
                let rest = split_segs(p@.subrange(i + 1, n as int));
                assert(split_segs(p@.subrange(i as int, n as int)) =~= seq![
                    seq![p@[i as int]] + rest[0],
                ] + rest.subrange(1, rest.len() as int));
                assert(cur@ =~= pre_cur.push(p@[i as int]));
                assert(pre_cur + (seq![p@[i as int]] + rest[0]) =~= cur@ + rest[0]);
                assert(split_segs(p@) =~~= {
                    done.deep_view() + (seq![cur@ + rest[0]] + rest.subrange(1, rest.len() as int))
                });
            }
        }
        i = i + 1;
    }
    proof {
        let rest = split_segs(p@.subrange(n as int, n as int));
        assert(rest =~~= seq![Seq::<u8>::empty()]);
        assert(cur@ + Seq::<u8>::empty() =~= cur@);
    }
    done.push(cur);
    proof {
        assert(done.deep_view() =~~= split_segs(p@));
    }
    done
}

/// Canonicalize `segs` against the segment list `base`: empty and `.`
/// segments vanish, `..` pops, and popping past the sandbox root yields
/// `None`.
pub open spec fn canon_from(base: Seq<Seq<u8>>, segs: Seq<Seq<u8>>) -> Option<Seq<Seq<u8>>>
    decreases segs.len(),
{
    if segs.len() == 0 {
        Some(base)
    } else {
        let s0 = segs[0];
        let rest = segs.subrange(1, segs.len() as int);
        if s0.len() == 0 || s0 == seq![46u8] {
            canon_from(base, rest)
        } else if s0 == seq![46u8, 46u8] {
            if base.len() == 0 {
                None
            } else {
                canon_from(base.drop_last(), rest)
            }
        } else {
            canon_from(base.push(s0), rest)
        }
    }
}

/// Canonicalize split segments against a base directory's segments.
pub fn canonicalize(base: &Vec<Vec<u8>>, segs: &Vec<Vec<u8>>) -> (r: Option<Vec<Vec<u8>>>)
    ensures
        match r {
            Some(c) => canon_from(base.deep_view(), segs.deep_view()) == Some(c.deep_view()),
            None => canon_from(base.deep_view(), segs.deep_view()) is None,
        },
{
    let mut stack: Vec<Vec<u8>> = Vec::new();
    let mut i: usize = 0;
    let n = base.len();
    while i < n
        invariant
            n == base@.len(),
            i <= n,
            stack.deep_view() =~~= base.deep_view().subrange(0, i as int),
        decreases n - i,
    {
        let seg = crate::codec::copy_range(base[i].as_slice(), 0, base[i].len());
        let ghost before = stack.deep_view();
        stack.push(seg);
        i = i + 1;
        proof {
            assert(base@[i - 1]@ =~= base@[i - 1]@.subrange(0, base@[i - 1]@.len() as int));
            assert(base@[i - 1].deep_view() =~= base@[i - 1]@);
            assert(seg@ =~= base.deep_view()[i - 1]);
            assert(stack.deep_view() =~~= before.push(seg@));
            assert(stack.deep_view() =~~= base.deep_view().subrange(0, i as int));
        }
    }
    proof {
        assert(stack.deep_view() =~~= base.deep_view());
        assert(segs.deep_view().subrange(0, segs@.len() as int) =~~= segs.deep_view());
    }
    let m = segs.len();
    let mut j: usize = 0;
    while j < m
        invariant
            m == segs@.len(),
            j <= m,
            canon_from(base.deep_view(), segs.deep_view()) == canon_from(
                stack.deep_view(),
                segs.deep_view().subrange(j as int, m as int),
            ),
        decreases m - j,
    {
        let ghost tail = segs.deep_view().subrange(j as int, m as int);
        let seg = &segs[j];
        proof {
            assert(tail.len() > 0);
            assert(tail[0] == segs.deep_view()[j as int]);
            assert(tail[0] =~= seg@);
            assert(tail.subrange(1, tail.len() as int) =~~= segs.deep_view().subrange(
                j + 1,
                m as int,
            ));
        }
        if seg.len() == 0 || (seg.len() == 1 && seg[0] == 46) {
            proof {
                if seg@.len() == 1 {
                    assert(seg@ =~= seq![46u8]);
                }
                assert(canon_from(stack.deep_view(), tail) == canon_from(
                    stack.deep_view(),
                    tail.subrange(1, tail.len() as int),
                ));
            }
        } else if seg.len() == 2 && seg[0] == 46 && seg[1] == 46 {
            proof {
                assert(seg@ =~= seq![46u8, 46u8]);
            }
            let ghost before = stack.deep_view();
            if stack.len() == 0 {
                proof {
                    assert(canon_from(stack.deep_view(), tail) is None);
                }
                return None;
            }
            let popped = stack.pop();
            proof {
                assert(stack.deep_view() =~~= before.drop_last());
                assert(canon_from(before, tail) == canon_from(
                    stack.deep_view(),
                    tail.subrange(1, tail.len() as int),
                ));
            }
        } else {
            proof {
                if seg@ == seq![46u8] {
                    assert(seg@[0] == 46u8);
                    assert(false);
                }
                if seg@ == seq![46u8, 46u8] {
                    assert(seg@[0] == 46u8 && seg@[1] == 46u8);
                    assert(false);
                }
            }
            let copy = crate::codec::copy_range(seg.as_slice(), 0, seg.len());
            let ghost before = stack.deep_view();
            stack.push(copy);
            proof {
                assert(seg@ =~= seg@.subrange(0, seg@.len() as int));
                assert(stack.deep_view() =~~= before.push(seg@));
                assert(canon_from(before, tail) == canon_from(
                    stack.deep_view(),
                    tail.subrange(1, tail.len() as int),
                ));
            }
        }
        j = j + 1;
    }
    proof {
        assert(segs.deep_view().subrange(m as int, m as int) =~~= Seq::<Seq<u8>>::empty());
    }
    Some(stack)
}

} // verus!

verus! {

/// The absolute path of `file` under the home directory of `addr` on
/// the chain mount: the chain prefix, the address in hex, and the file.
pub fn home(addr: &crate::types::Address, file: &[u8]) -> (r: Vec<u8>)
    ensures
        r@ == seq![47u8, 111u8, 112u8, 116u8, 47u8, 111u8, 97u8, 115u8, 105u8, 115u8, 47u8]
            + crate::codec::hex_of(addr@) + seq![47u8] + file@,
{
    let mut r: Vec<u8> = vec![47u8, 111u8, 112u8, 116u8, 47u8, 111u8, 97u8, 115u8, 105u8, 115u8, 47u8];
    let ghost prefix = r@;
    proof {
        assert(prefix =~= seq![
            47u8, 111u8, 112u8, 116u8, 47u8, 111u8, 97u8, 115u8, 105u8, 115u8, 47u8,
        ]);
    }
    let mut hexpart = crate::codec::hex_encode(vstd::array::array_as_slice(&addr.0));
    r.append(&mut hexpart);
    r.push(47);
    let mut filepart = crate::codec::copy_range(file, 0, file.len());
    r.append(&mut filepart);
    proof {
        assert(addr.0@ =~= addr@);
        assert(file@.subrange(0, file@.len() as int) =~= file@);
        assert(r@ =~= prefix + crate::codec::hex_of(addr@) + seq![47u8] + file@);
    }
    r
}

} // verus!
