//! Small verified array utilities: elementwise arithmetic over a list, and
//! flattening nested lists while keeping only the first occurrence of each
//! multiple of two or three.

use vstd::prelude::*;

verus! {

/// The operations `map_array` applies.
#[derive(Debug, Clone, Copy, PartialEq, Eq)]
pub enum ArrayOp {
    Add,
    Sub,
    Mul,
    Div,
}

/// What one application yields. Division truncates toward zero, as machine
/// division does.
pub open spec fn apply_op(op: ArrayOp, x: int, n: int) -> int {
    match op {
        ArrayOp::Add => x + n,
        ArrayOp::Sub => x - n,
        ArrayOp::Mul => x * n,
        ArrayOp::Div => {
            let q = (if x >= 0 {
                x
            } else {
                -x
            }) / (if n >= 0 {
                n
            } else {
                -n
            });
            if (x >= 0) == (n >= 0) {
                q
            } else {
                -q
            }
        },
    }
}

/// Applies `op` with `n` to every element.
#[verifier::loop_isolation(false)]
pub fn map_array(array: Vec<i64>, op: ArrayOp, n: i64) -> (r: Vec<i64>)
    requires
        forall|i: int|
            0 <= i < array@.len() ==> i64::MIN <= apply_op(op, #[trigger] array@[i] as int, n as int)
                <= i64::MAX,
        op is Div ==> n != 0 && n != i64::MIN && (forall|i: int|
            0 <= i < array@.len() ==> #[trigger] array@[i] != i64::MIN),
    ensures
        r@.len() == array@.len(),
        forall|i: int|
            0 <= i < array@.len() ==> #[trigger] r@[i] as int == apply_op(
                op,
                array@[i] as int,
                n as int,
            ),
{
    let m = array.len();
    let mut out: Vec<i64> = Vec::new();
    let mut i: usize = 0;
    while i < m
        invariant
            0 <= i <= m,
            out@.len() == i,
            forall|k: int|
                0 <= k < i ==> #[trigger] out@[k] as int == apply_op(op, array@[k] as int, n as int),
        decreases m - i,
    {
        let x = array[i];
        let y = match op {
            ArrayOp::Add => x + n,
            ArrayOp::Sub => x - n,
            ArrayOp::Mul => x * n,
            ArrayOp::Div => {
                let ax = if x >= 0 {
                    x
                } else {
                    -x
                };
                let an = if n >= 0 {
                    n
                } else {
                    -n
                };
                let q = ax / an;
                if (x >= 0) == (n >= 0) {
                    q
                } else {
                    -q
                }
            },
        };
        out.push(y);
        i = i + 1;
    }
    out
}

/// Whether a value passes the filter: a multiple of two or of three.
pub open spec fn passes(x: u32) -> bool {
    x % 2 == 0 || x % 3 == 0
}

/// The passing values of `s` in order, each kept at its first occurrence.
pub open spec fn first_passers(s: Seq<u32>) -> Seq<u32>
    decreases s.len(),
{
    if s.len() == 0 {
        Seq::empty()
    } else {
        let rest = first_passers(s.drop_last());
        if passes(s.last()) && !rest.contains(s.last()) {
            rest.push(s.last())
        } else {
            rest
        }
    }
}

/// Prefix lists of first passers grow one decision at a time.
pub proof fn lemma_first_passers_take_succ(s: Seq<u32>, k: int)
    requires
        0 <= k < s.len(),
    ensures
        first_passers(s.take(k + 1)) == (if passes(s[k]) && !first_passers(s.take(k)).contains(
            s[k],
        ) {
            first_passers(s.take(k)).push(s[k])
        } else {
            first_passers(s.take(k))
        }),
{
    assert(s.take(k + 1).drop_last() =~= s.take(k));
    assert(s.take(k + 1).last() == s[k]);
}

/// Flattens the nested lists and keeps, in order, the first occurrence of
/// every value that is a multiple of two or of three.
#[verifier::loop_isolation(false)]
pub fn flatten_and_filter(list: Vec<Vec<u32>>) -> (r: Vec<u32>)
    ensures
        r@ == first_passers(crate::seqtools::cat(list@.map_values(|v: Vec<u32>| v@))),
{
    let ghost nested = list@.map_values(|v: Vec<u32>| v@);
    let mut out: Vec<u32> = Vec::new();
    let n = list.len();
    let mut i: usize = 0;
    proof {
        assert(crate::seqtools::cat(nested.take(0)) =~= Seq::<u32>::empty());
    }
    while i < n
        invariant
            0 <= i <= n,
            out@ == first_passers(crate::seqtools::cat(nested.take(i as int))),
        decreases n - i,
    {
        let inner = &list[i];
        let m = inner.len();
        let mut j: usize = 0;
        proof {
            assert(nested.take(i + 1).drop_last() =~= nested.take(i as int));
            assert(nested.take(i + 1).last() == list@[i as int]@);
            crate::seqtools::lemma_cat_push(nested.take(i as int), list@[i as int]@);
            assert(nested.take(i as int).push(list@[i as int]@) =~= nested.take(i + 1));
            assert(crate::seqtools::cat(nested.take(i as int)) + list@[i as int]@.take(0)
                =~= crate::seqtools::cat(nested.take(i as int)));
        }
        while j < m
            invariant
                0 <= j <= m,
                m == list@[i as int]@.len(),
                out@ == first_passers(
                    crate::seqtools::cat(nested.take(i as int)) + list@[i as int]@.take(j as int),
                ),
            decreases m - j,
        {
            let ghost prefix = crate::seqtools::cat(nested.take(i as int)) + list@[i as int]@.take(
                j as int,
            );
            let x = inner[j];
            proof {
                assert(crate::seqtools::cat(nested.take(i as int)) + list@[i as int]@.take(j + 1)
                    =~= prefix.push(x));
                assert(prefix.push(x).drop_last() =~= prefix);
                assert(prefix.push(x).last() == x);
            }
            if x % 2 == 0 || x % 3 == 0 {
                let len = out.len();
                let mut seen = false;
                let mut k: usize = 0;
                while k < len
                    invariant
                        0 <= k <= len,
                        len == out@.len(),
                        seen <==> exists|u: int| 0 <= u < k && out@[u] == x,
                    decreases len - k,
                {
                    if out[k] == x {
                        seen = true;
                    }
                    k = k + 1;
                }
                proof {
                    if seen {
                        assert(out@.contains(x));
                    } else {
                        assert(!out@.contains(x)) by {
                            if out@.contains(x) {
                                let u = choose|u: int| 0 <= u < out@.len() && out@[u] == x;
                            }
                        }
                    }
                }
                if !seen {
                    out.push(x);
                }
            }
            j = j + 1;
        }
        proof {
            assert(list@[i as int]@.take(m as int) =~= list@[i as int]@);
        }
        i = i + 1;
    }
    proof {
        assert(nested.take(n as int) =~= nested);
    }
    out
}

} // verus!
