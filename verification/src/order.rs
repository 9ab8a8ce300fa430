//! Ordering of names: Unicode lower-casing (through `str::to_lowercase`),
//! lexicographic comparison as `String`'s `Ord` does it, and sorting.

use vstd::prelude::*;
use crate::text::chars_of;

verus! {

/// What `str::to_lowercase` returns for `s`.
pub uninterp spec fn lowercase(s: Seq<char>) -> Seq<char>;

/// `str::to_lowercase`: the lower-case equivalent of `s` under the Unicode
/// `Lowercase` mapping. The mapping is named, not written out.
#[verifier::external_body]
pub(crate) fn to_lowercase(s: &str) -> (r: String)
    ensures
        r@ == lowercase(s@),
{
    s.to_lowercase()
}

/// `a <= b` in the order of `String`'s `Ord`: lexicographic by character
/// (UTF-8 byte order and code point order agree).
pub open spec fn lex_le(a: Seq<char>, b: Seq<char>) -> bool
    decreases a.len(),
{
    if a.len() == 0 {
        true
    } else if b.len() == 0 {
        false
    } else if a[0] < b[0] {
        true
    } else if a[0] > b[0] {
        false
    } else {
        lex_le(a.drop_first(), b.drop_first())
    }
}

/// Any two sequences are ordered one way or the other.
pub proof fn lemma_lex_total(a: Seq<char>, b: Seq<char>)
    ensures
        lex_le(a, b) || lex_le(b, a),
    decreases a.len(),
{
    if a.len() > 0 && b.len() > 0 && a[0] == b[0] {
        lemma_lex_total(a.drop_first(), b.drop_first());
    }
}

/// The order is transitive.
pub proof fn lemma_lex_trans(a: Seq<char>, b: Seq<char>, c: Seq<char>)
    requires
        lex_le(a, b),
        lex_le(b, c),
    ensures
        lex_le(a, c),
    decreases a.len(),
{
    if a.len() > 0 && b.len() > 0 && c.len() > 0 && a[0] == b[0]
        && b[0] == c[0] {
        lemma_lex_trans(a.drop_first(), b.drop_first(), c.drop_first());
    }
}

/// Whether `a <= b` lexicographically.
pub fn lex_le_chars(a: &Vec<char>, b: &Vec<char>) -> (r: bool)
    ensures
        r == lex_le(a@, b@),
{
    let mut i: usize = 0;
    assert(a@.skip(0) == a@ && b@.skip(0) == b@);
    while i < a.len()
        invariant
            i <= a.len(),
            i <= b.len(),
            lex_le(a@, b@) == lex_le(a@.skip(i as int), b@.skip(i as int)),
        decreases a.len() - i,
    {
        if i >= b.len() {
            return false;
        }
        let x = a[i];
        let y = b[i];
        assert(a@.skip(i as int)[0] == x && b@.skip(i as int)[0] == y);
        if x < y {
            return true;
        }
        if x > y {
            return false;
        }
        assert(a@.skip(i as int).drop_first() == a@.skip(i + 1));
        assert(b@.skip(i as int).drop_first() == b@.skip(i + 1));
        i = i + 1;
    }
    true
}

/// `p` lists each index below `n` exactly once.
pub open spec fn is_index_perm(p: Seq<usize>, n: nat) -> bool {
    &&& p.len() == n
    &&& forall|i: int| 0 <= i < p.len() ==> #[trigger] p[i] < n
    &&& forall|i: int, j: int| 0 <= i < j < p.len() ==> p[i] != p[j]
    &&& forall|j: int| 0 <= j < n ==> #[trigger] lists(p, j)
}

/// Some entry of `p` is `j`.
pub open spec fn lists(p: Seq<usize>, j: int) -> bool {
    exists|k: int| 0 <= k < p.len() && p[k] as int == j
}

/// `r` lists the entries of `s` in the order that `p` gives.
pub open spec fn arranged_by<V>(r: Seq<V>, s: Seq<V>, p: Seq<usize>) -> bool {
    &&& is_index_perm(p, s.len())
    &&& r.len() == s.len()
    &&& forall|k: int| 0 <= k < r.len() ==> r[k] == s[#[trigger] p[k] as int]
}

/// `r` is a rearrangement of `s`.
pub open spec fn is_rearrangement<V>(r: Seq<V>, s: Seq<V>) -> bool {
    exists|p: Seq<usize>| arranged_by(r, s, p)
}

/// Where a stable insertion of index `i` goes into `order`, searching from
/// `pos`: before the first entry whose key is greater than the key of `i`.
pub open spec fn insert_position(keys: Seq<Seq<char>>, order: Seq<usize>, i: int, pos: int) -> int
    decreases order.len() - pos,
{
    if pos < 0 || pos >= order.len() {
        order.len() as int
    } else if !lex_le(keys[order[pos] as int], keys[i]) {
        pos
    } else {
        insert_position(keys, order, i, pos + 1)
    }
}

/// The indices `0..n` of `keys` in stable ascending order of their keys:
/// each index goes after every earlier one whose key is not greater.
pub open spec fn stable_order_upto(keys: Seq<Seq<char>>, n: nat) -> Seq<usize>
    decreases n,
{
    if n == 0 {
        seq![]
    } else {
        let o = stable_order_upto(keys, (n - 1) as nat);
        o.insert(insert_position(keys, o, n - 1, 0), (n - 1) as usize)
    }
}

/// The indices of `keys` in stable ascending order of their keys: ascending
/// keys, and among equal keys ascending indices.
pub open spec fn stable_order(keys: Seq<Seq<char>>) -> Seq<usize> {
    stable_order_upto(keys, keys.len())
}

/// Where the stable insertion goes: after every entry whose key is not
/// greater, before the first one that is.
pub proof fn lemma_insert_position(keys: Seq<Seq<char>>, order: Seq<usize>, i: int, pos: int)
    requires
        0 <= pos <= order.len(),
        forall|x: int| 0 <= x < pos ==> lex_le(#[trigger] keys[order[x] as int], keys[i]),
    ensures
        pos <= insert_position(keys, order, i, pos) <= order.len(),
        forall|x: int| 0 <= x < insert_position(keys, order, i, pos) ==> lex_le(#[trigger] keys[order[x] as int], keys[i]),
        insert_position(keys, order, i, pos) < order.len() ==> !lex_le(
            keys[order[insert_position(keys, order, i, pos)] as int],
            keys[i],
        ),
    decreases order.len() - pos,
{
    if pos < order.len() && lex_le(keys[order[pos] as int], keys[i]) {
        lemma_insert_position(keys, order, i, pos + 1);
    }
}

/// The stable order lists every index once, with ascending keys.
pub proof fn lemma_stable_order_upto(keys: Seq<Seq<char>>, n: nat)
    requires
        n <= keys.len(),
        keys.len() <= usize::MAX,
    ensures
        is_index_perm(stable_order_upto(keys, n), n),
        forall|x: int, y: int|
            0 <= x < y < n ==> lex_le(
                #[trigger] keys[stable_order_upto(keys, n)[x] as int],
                #[trigger] keys[stable_order_upto(keys, n)[y] as int],
            ),
    decreases n,
{
    if n > 0 {
        let i: int = n - 1;
        let old_order = stable_order_upto(keys, (n - 1) as nat);
        lemma_stable_order_upto(keys, (n - 1) as nat);
        lemma_insert_position(keys, old_order, i, 0);
        let pos = insert_position(keys, old_order, i, 0);
        let order = stable_order_upto(keys, n);
        assert(order == old_order.insert(pos, i as usize));
        if pos < old_order.len() {
            lemma_lex_total(keys[old_order[pos] as int], keys[i]);
        }
        assert forall|j: int| 0 <= j < n implies #[trigger] lists(order, j) by {
            if j == i {
                assert(order[pos] == i as usize);
            } else {
                assert(lists(old_order, j));
                let k = choose|k: int| 0 <= k < old_order.len() && old_order[k] as int == j;
                if k < pos {
                    assert(order[k] as int == j);
                } else {
                    assert(order[k + 1] as int == j);
                }
            }
        }
        assert forall|x: int, y: int| 0 <= x < y < order.len() implies order[x] != order[y] by {
            let x2 = if x < pos { x } else { x - 1 };
            let y2 = if y < pos { y } else { y - 1 };
            if x != pos && y != pos {
                assert(order[x] == old_order[x2] && order[y] == old_order[y2]);
            } else if x == pos {
                assert(order[y] == old_order[y2]);
            } else {
                assert(order[x] == old_order[x2]);
            }
        }
        assert forall|x: int, y: int| 0 <= x < y < n implies lex_le(
            #[trigger] keys[order[x] as int],
            #[trigger] keys[order[y] as int],
        ) by {
            if x < pos && y == pos {
            } else if x == pos && y > pos {
                let q = y - 1;
                assert(order[y] == old_order[q]);
                if q > pos {
                    assert(lex_le(keys[old_order[pos] as int], keys[old_order[q] as int]));
                    lemma_lex_trans(keys[i], keys[old_order[pos] as int], keys[old_order[q] as int]);
                }
            } else if x < pos && y > pos {
                assert(order[y] == old_order[y - 1]);
            } else if x > pos {
                assert(order[x] == old_order[x - 1] && order[y] == old_order[y - 1]);
            }
        }
    }
}

/// The order is antisymmetric: sequences ordered both ways are equal.
pub proof fn lemma_lex_antisym(a: Seq<char>, b: Seq<char>)
    requires
        lex_le(a, b),
        lex_le(b, a),
    ensures
        a == b,
    decreases a.len(),
{
    if a.len() > 0 && b.len() > 0 {
        lemma_lex_antisym(a.drop_first(), b.drop_first());
        assert(a[0] == b[0]);
        assert(a =~= seq![a[0]] + a.drop_first());
        assert(b =~= seq![b[0]] + b.drop_first());
    } else {
        assert(a =~= b);
    }
}

/// The indices of `keys`, ordered so that the keys they name are ascending;
/// indices with equal keys keep their order.
pub fn sort_order(keys: &Vec<Vec<char>>) -> (order: Vec<usize>)
    ensures
        order@ == stable_order(keys.deep_view()),
        is_index_perm(order@, keys.len() as nat),
        forall|x: int, y: int|
            0 <= x < y < order.len() ==> lex_le(
                #[trigger] keys@[order@[x] as int]@,
                #[trigger] keys@[order@[y] as int]@,
            ),
{
    let mut order: Vec<usize> = Vec::new();
    let mut i: usize = 0;
    let ghost kv = keys.deep_view();
    assert forall|k: int| 0 <= k < keys.len() implies #[trigger] kv[k] == keys@[k]@ by {
        assert(kv[k] =~= keys@[k]@);
    }
    while i < keys.len()
        invariant
            i <= keys.len(),
            kv == keys.deep_view(),
            forall|k: int| 0 <= k < keys.len() ==> #[trigger] kv[k] == keys@[k]@,
            order@ == stable_order_upto(kv, i as nat),
        decreases keys.len() - i,
    {
        proof { lemma_stable_order_upto(kv, i as nat); }
        let mut pos: usize = 0;
        while pos < order.len()
            invariant
                i < keys.len(),
                pos <= order.len(),
                is_index_perm(order@, i as nat),
                forall|k: int| 0 <= k < keys.len() ==> #[trigger] kv[k] == keys@[k]@,
                insert_position(kv, order@, i as int, 0) == insert_position(kv, order@, i as int, pos as int),
            ensures
                insert_position(kv, order@, i as int, 0) == pos,
            decreases order.len() - pos,
        {
            assert(kv[order@[pos as int] as int] == keys@[order@[pos as int] as int]@);
            if !lex_le_chars(&keys[order[pos]], &keys[i]) {
                break;
            }
            pos = pos + 1;
        }
        order.insert(pos, i);
        i = i + 1;
    }
    proof { lemma_stable_order_upto(kv, i as nat); }
    assert forall|x: int, y: int| 0 <= x < y < order.len() implies lex_le(
        #[trigger] keys@[order@[x] as int]@,
        #[trigger] keys@[order@[y] as int]@,
    ) by {
        assert(kv[order@[x] as int] == keys@[order@[x] as int]@);
        assert(kv[order@[y] as int] == keys@[order@[y] as int]@);
    }
    order
}

/// The lower-case forms of `names`, as characters.
pub fn lowercase_keys(names: &Vec<&str>) -> (keys: Vec<Vec<char>>)
    ensures
        keys.len() == names.len(),
        forall|i: int| 0 <= i < names.len() ==> #[trigger] keys@[i]@ == lowercase(names@[i]@),
{
    let mut keys: Vec<Vec<char>> = Vec::new();
    let mut i: usize = 0;
    while i < names.len()
        invariant
            i <= names.len(),
            keys.len() == i,
            forall|k: int| 0 <= k < i ==> #[trigger] keys@[k]@ == lowercase(names@[k]@),
        decreases names.len() - i,
    {
        let low = to_lowercase(names[i]);
        keys.push(chars_of(low.as_str()));
        i = i + 1;
    }
    keys
}

} // verus!
