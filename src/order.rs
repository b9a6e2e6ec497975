use vstd::prelude::*;
use vstd::multiset::Multiset;

verus! {

/// Lexicographic order on byte strings: `a` comes first or equals `b`.
pub open spec fn lex_le(a: Seq<u8>, b: Seq<u8>) -> bool
    decreases a.len(),
{
    if a.len() == 0 {
        true
    } else if b.len() == 0 {
        false
    } else if a[0] != b[0] {
        a[0] < b[0]
    } else {
        lex_le(a.drop_first(), b.drop_first())
    }
}

/// The bytes by which a report row is ordered: its path in UTF-8.
pub open spec fn row_key(row: (String, usize)) -> Seq<u8> {
    vstd::utf8::encode_utf8(row.0@)
}

/// Rows in order of their paths' bytes.
pub open spec fn rows_sorted(rows: Seq<(String, usize)>) -> bool {
    forall|a: int, b: int| 0 <= a < b < rows.len() ==> lex_le(row_key(rows[a]), row_key(rows[b]))
}

pub proof fn lemma_lex_total(a: Seq<u8>, b: Seq<u8>)
    ensures
        lex_le(a, b) || lex_le(b, a),
    decreases a.len(),
{
    if a.len() > 0 && b.len() > 0 && a[0] == b[0] {
        lemma_lex_total(a.drop_first(), b.drop_first());
    }
}

pub proof fn lemma_lex_trans(a: Seq<u8>, b: Seq<u8>, c: Seq<u8>)
    requires
        lex_le(a, b),
        lex_le(b, c),
    ensures
        lex_le(a, c),
    decreases a.len(),
{
    if a.len() > 0 && b.len() > 0 && c.len() > 0 && a[0] == b[0] && b[0] == c[0] {
        lemma_lex_trans(a.drop_first(), b.drop_first(), c.drop_first());
    }
}

/// Whether the bytes `a` come first in lexicographic order, or equal `b`.
pub fn bytes_le(a: &[u8], b: &[u8]) -> (r: bool)
    ensures
        r == lex_le(a@, b@),
{
    let mut i: usize = 0;
    assert(a@.skip(0) =~= a@);
    assert(b@.skip(0) =~= b@);
    while i < a.len() && i < b.len()
        invariant
            i <= a@.len(),
            i <= b@.len(),
            lex_le(a@, b@) == lex_le(a@.skip(i as int), b@.skip(i as int)),
        decreases a.len() - i,
    {
        assert(a@.skip(i as int)[0] == a@[i as int]);
        assert(b@.skip(i as int)[0] == b@[i as int]);
        if a[i] != b[i] {
            return a[i] < b[i];
        }
        assert(a@.skip(i as int).drop_first() =~= a@.skip(i + 1));
        assert(b@.skip(i as int).drop_first() =~= b@.skip(i + 1));
        i = i + 1;
    }
    i == a.len()
}

/// `r` holds the items of `rows` rearranged: item `m` of `r` is item
/// `perm[m]` of `rows`, and each item of `rows` is taken once.
pub open spec fn rearranges<T>(r: Seq<T>, rows: Seq<T>, perm: Seq<int>) -> bool {
    &&& perm.len() == r.len()
    &&& r.len() == rows.len()
    &&& forall|m: int| 0 <= m < r.len() ==> 0 <= #[trigger] perm[m] < rows.len() && r[m] == rows[perm[m]]
    &&& forall|a: int, b: int| 0 <= a < r.len() && 0 <= b < r.len() && a != b ==> #[trigger] perm[a] != #[trigger] perm[b]
    &&& forall|u: int| 0 <= u < rows.len() ==> #[trigger] taken(perm, u)
}

/// Some place of `perm` holds `u`.
pub open spec fn taken(perm: Seq<int>, u: int) -> bool {
    exists|m: int| 0 <= m < perm.len() && perm[m] == u
}

/// The rows of `rows`, each once more, in order of their paths' bytes.
pub fn sort_rows(rows: Vec<(String, usize)>) -> (r: Vec<(String, usize)>)
    ensures
        rows_sorted(r@),
        r@.len() == rows@.len(),
        r@.to_multiset() == rows@.to_multiset(),
        forall|x: (String, usize)| r@.contains(x) <==> rows@.contains(x),
        exists|perm: Seq<int>| rearranges(r@, rows@, perm),
{
    let ghost all = rows@;
    let ghost mut perm: Seq<int> = Seq::empty();
    let mut rest = rows;
    let mut out: Vec<(String, usize)> = Vec::new();
    proof {
        vstd::seq_lib::to_multiset_len(out@);
        vstd::multiset::lemma_multiset_empty_len(out@.to_multiset());
        assert(out@.to_multiset().add(rest@.to_multiset()) =~= rows@.to_multiset());
    }
    while rest.len() > 0
        invariant
            rows_sorted(out@),
            out@.len() + rest@.len() == rows@.len(),
            out@.to_multiset().add(rest@.to_multiset()) == rows@.to_multiset(),
            forall|x: (String, usize)| rows@.contains(x) <==> (out@.contains(x) || rest@.contains(x)),
            all == rows@,
            rest@ == all.take(rest@.len() as int),
            perm.len() == out@.len(),
            forall|m: int| 0 <= m < out@.len() ==> rest@.len() <= #[trigger] perm[m] < all.len() && out@[m] == all[perm[m]],
            forall|a: int, b: int| 0 <= a < out@.len() && 0 <= b < out@.len() && a != b ==> #[trigger] perm[a] != #[trigger] perm[b],
            forall|u: int| rest@.len() <= u < all.len() ==> #[trigger] taken(perm, u),
        decreases rest.len(),
    {
        let ghost rest0 = rest@;
        let ghost out0 = out@;
        let row = rest.pop().unwrap();
        proof {
            assert(rest0 =~= rest@.push(row));
            vstd::seq_lib::to_multiset_build(rest@, row);
        }
        let mut pos: usize = 0;
        while pos < out.len() && bytes_le(out[pos].0.as_str().as_bytes(), row.0.as_str().as_bytes())
            invariant
                out@ == out0,
                pos <= out@.len(),
                forall|m: int| 0 <= m < pos ==> lex_le(row_key(out@[m]), row_key(row)),
            decreases out.len() - pos,
        {
            pos = pos + 1;
        }
        proof {
            if pos < out@.len() {
                lemma_lex_total(row_key(out@[pos as int]), row_key(row));
            }
        }
        out.insert(pos, row);
        proof {
            let o = out@;
            assert(o == out0.insert(pos as int, row));
            vstd::seq_lib::to_multiset_insert(out0, pos as int, row);
            assert(o.to_multiset().add(rest@.to_multiset()) =~= rows@.to_multiset());
            let perm0 = perm;
            let idx = rest@.len() as int;
            assert(row == all[idx]);
            assert(rest@ =~= all.take(idx));
            perm = perm0.insert(pos as int, idx);
            assert forall|m: int| 0 <= m < o.len() implies idx <= #[trigger] perm[m] < all.len() && o[m] == all[perm[m]] by {
                if m < pos {
                    assert(perm[m] == perm0[m]);
                } else if m > pos {
                    assert(perm[m] == perm0[m - 1]);
                }
            }
            assert forall|a: int, b: int| 0 <= a < o.len() && 0 <= b < o.len() && a != b implies #[trigger] perm[a] != #[trigger] perm[b] by {
                if a != pos && b != pos {
                    let a0 = if a < pos { a } else { a - 1 };
                    let b0 = if b < pos { b } else { b - 1 };
                    assert(perm[a] == perm0[a0] && perm[b] == perm0[b0]);
                } else if a == pos {
                    let b0 = if b < pos { b } else { b - 1 };
                    assert(perm[b] == perm0[b0]);
                } else {
                    let a0 = if a < pos { a } else { a - 1 };
                    assert(perm[a] == perm0[a0]);
                }
            }
            assert forall|u: int| idx <= u < all.len() implies #[trigger] taken(perm, u) by {
                if u == idx {
                    assert(perm[pos as int] == u);
                } else {
                    assert(taken(perm0, u));
                    let m0 = choose|m: int| 0 <= m < perm0.len() && perm0[m] == u;
                    if m0 < pos {
                        assert(perm[m0] == u);
                    } else {
                        assert(perm[m0 + 1] == u);
                    }
                }
            }
            assert forall|a: int, b: int| 0 <= a < b < o.len() implies lex_le(row_key(o[a]), row_key(o[b])) by {
                if b < pos {
                } else if b == pos {
                } else if a < pos {
                    lemma_lex_trans(row_key(o[a]), row_key(row), row_key(out0[pos as int]));
                    if b > pos + 1 {
                        lemma_lex_trans(row_key(o[a]), row_key(out0[pos as int]), row_key(o[b]));
                    }
                } else if a == pos {
                    if b > pos + 1 {
                        lemma_lex_trans(row_key(row), row_key(out0[pos as int]), row_key(o[b]));
                    }
                } else {
                    assert(o[a] == out0[a - 1] && o[b] == out0[b - 1]);
                }
            }
            assert forall|x: (String, usize)| rows@.contains(x) <==> (out@.contains(x) || rest@.contains(x)) by {
                if out0.contains(x) {
                    let m = choose|m: int| 0 <= m < out0.len() && out0[m] == x;
                    if m < pos {
                        assert(o[m] == x);
                    } else {
                        assert(o[m + 1] == x);
                    }
                }
                if rest0.contains(x) {
                    let m = choose|m: int| 0 <= m < rest0.len() && rest0[m] == x;
                    if m < rest@.len() {
                        assert(rest@[m] == x);
                    } else {
                        assert(o[pos as int] == x);
                    }
                }
                if o.contains(x) {
                    let m = choose|m: int| 0 <= m < o.len() && o[m] == x;
                    if m < pos {
                        assert(out0[m] == x);
                    } else if m == pos {
                        assert(rest0[rest@.len() as int] == x);
                    } else {
                        assert(out0[m - 1] == x);
                    }
                }
                if rest@.contains(x) {
                    let m = choose|m: int| 0 <= m < rest@.len() && rest@[m] == x;
                    assert(rest0[m] == x);
                }
            }
        }
    }
    proof {
        vstd::seq_lib::to_multiset_len(rest@);
        vstd::multiset::lemma_multiset_empty_len(rest@.to_multiset());
        assert(rearranges(out@, rows@, perm));
        assert(out@.to_multiset().add(rest@.to_multiset()) =~= out@.to_multiset());
    }
    out
}

} // verus!
