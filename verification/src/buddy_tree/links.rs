use crate::buddy_tree::index::{lemma_level_in_tree, level_of, node_count};
use crate::buddy_tree::state::BlockState;
use crate::data_structures::bits::{bit_at, bit_len, lemma_with_bit, with_bit};
use vstd::prelude::*;

verus! {

/// What the bit of block `i` has to be: set for a free or an inner block,
/// and for the live block `pending` whose release has begun.
pub open spec fn expected_bit(st: Seq<BlockState>, pending: Option<nat>, i: int) -> bool {
    st[i] is Free || st[i] is Inner || pending == Some(i as nat)
}

/// The free-tree bit-vector `bits` agrees with the tree `st`.
pub open spec fn bits_ok(levels: nat, st: Seq<BlockState>, bits: Seq<usize>, pending: Option<nat>) -> bool {
    &&& bit_len(bits) >= node_count(levels)
    &&& forall|i: int|
        0 <= i < node_count(levels) ==> #[trigger] bit_at(bits, i) == expected_bit(st, pending, i)
}

/// The free lists hold exactly the free blocks of the tree `st`, each once
/// and on the list of its level.
pub open spec fn links_ok(levels: nat, st: Seq<BlockState>, lists: Seq<Seq<nat>>) -> bool {
    &&& lists.len() == levels
    &&& forall|l: int, j: int|
        0 <= l < levels && 0 <= j < lists[l].len() ==> {
            &&& level_of(#[trigger] lists[l][j]) == l
            &&& lists[l][j] < node_count(levels)
            &&& st[lists[l][j] as int] is Free
        }
    &&& forall|l: int| 0 <= l < levels ==> (#[trigger] lists[l]).no_duplicates()
    &&& forall|i: int|
        0 <= i < node_count(levels) && #[trigger] st[i] is Free ==> lists[level_of(
            i as nat,
        ) as int].contains(i as nat)
}

/// Writing bit `k` keeps the bit-vector in agreement with a tree that
/// expects the written value at `k` and what it expected before elsewhere.
pub proof fn lemma_bits_step(
    levels: nat,
    st: Seq<BlockState>,
    bits: Seq<usize>,
    pending: Option<nat>,
    st2: Seq<BlockState>,
    pending2: Option<nat>,
    k: int,
    value: bool,
)
    requires
        bits_ok(levels, st, bits, pending),
        0 <= k < node_count(levels),
        expected_bit(st2, pending2, k) == value,
        forall|i: int|
            0 <= i < node_count(levels) && i != k ==> expected_bit(st2, pending2, i)
                == expected_bit(st, pending, i),
    ensures
        bits_ok(levels, st2, with_bit(bits, k, value), pending2),
{
    lemma_with_bit(bits, k, value);
    let bits2 = with_bit(bits, k, value);
    assert forall|i: int| 0 <= i < node_count(levels) implies #[trigger] bit_at(bits2, i)
        == expected_bit(st2, pending2, i) by {
        assert(bit_at(bits, i) == expected_bit(st, pending, i));
    }
}

/// A bit-vector that agrees with a tree agrees with every tree that expects
/// the same bits.
pub proof fn lemma_bits_same(
    levels: nat,
    st: Seq<BlockState>,
    bits: Seq<usize>,
    pending: Option<nat>,
    st2: Seq<BlockState>,
    pending2: Option<nat>,
)
    requires
        bits_ok(levels, st, bits, pending),
        forall|i: int|
            0 <= i < node_count(levels) ==> expected_bit(st2, pending2, i) == expected_bit(
                st,
                pending,
                i,
            ),
    ensures
        bits_ok(levels, st2, bits, pending2),
{
    assert forall|i: int| 0 <= i < node_count(levels) implies #[trigger] bit_at(bits, i)
        == expected_bit(st2, pending2, i) by {
        assert(bit_at(bits, i) == expected_bit(st, pending, i));
    }
}

/// A block that becomes free and goes to the head of the list of its level
/// keeps the lists in step with the tree.
pub proof fn lemma_links_push(
    levels: nat,
    st: Seq<BlockState>,
    lists: Seq<Seq<nat>>,
    st2: Seq<BlockState>,
    i: nat,
)
    requires
        links_ok(levels, st, lists),
        i < node_count(levels),
        st.len() == node_count(levels),
        st2.len() == st.len(),
        !(st[i as int] is Free),
        st2[i as int] is Free,
        forall|k: int| 0 <= k < st.len() && k != i ==> (st2[k] is Free <==> st[k] is Free),
    ensures
        links_ok(
            levels,
            st2,
            lists.update(level_of(i) as int, seq![i] + lists[level_of(i) as int]),
        ),
{
    let level = level_of(i) as int;
    lemma_level_in_tree(i, levels);
    let longer = seq![i] + lists[level];
    let lists2 = lists.update(level, longer);
    assert forall|l: int, j: int| 0 <= l < levels && 0 <= j < lists2[l].len() implies {
        &&& level_of(#[trigger] lists2[l][j]) == l
        &&& lists2[l][j] < node_count(levels)
        &&& st2[lists2[l][j] as int] is Free
    } by {
        if l == level {
            if j > 0 {
                assert(lists2[l][j] == lists[l][j - 1]);
                assert(level_of(lists[l][j - 1]) == l);
            }
        } else {
            assert(lists2[l][j] == lists[l][j]);
            assert(level_of(lists[l][j]) == l);
        }
    }
    assert forall|l: int| 0 <= l < levels implies (#[trigger] lists2[l]).no_duplicates() by {
        assert(lists[l].no_duplicates());
        if l == level {
            assert forall|a: int, b: int|
                0 <= a < longer.len() && 0 <= b < longer.len() && a != b implies longer[a]
                != longer[b] by {
                if a > 0 {
                    assert(longer[a] == lists[l][a - 1]);
                    assert(level_of(lists[l][a - 1]) == l);
                }
                if b > 0 {
                    assert(longer[b] == lists[l][b - 1]);
                    assert(level_of(lists[l][b - 1]) == l);
                }
            }
        }
    }
    assert forall|k: int| 0 <= k < node_count(levels) && #[trigger] st2[k] is Free implies lists2[level_of(
        k as nat,
    ) as int].contains(k as nat) by {
        let l = level_of(k as nat) as int;
        lemma_level_in_tree(k as nat, levels);
        if k == i {
            assert(longer[0] == i);
        } else {
            assert(st[k] is Free);
            assert(lists[l].contains(k as nat));
            let j = choose|j: int| 0 <= j < lists[l].len() && lists[l][j] == k as nat;
            if l == level {
                assert(longer[j + 1] == k as nat);
            } else {
                assert(lists2[l][j] == k as nat);
            }
        }
    }
}

/// A free block that stops being free and leaves its list keeps the lists
/// in step with the tree.
pub proof fn lemma_links_remove(
    levels: nat,
    st: Seq<BlockState>,
    lists: Seq<Seq<nat>>,
    st2: Seq<BlockState>,
    i: nat,
)
    requires
        links_ok(levels, st, lists),
        i < node_count(levels),
        st.len() == node_count(levels),
        st2.len() == st.len(),
        st[i as int] is Free,
        !(st2[i as int] is Free),
        forall|k: int| 0 <= k < st.len() && k != i ==> (st2[k] is Free <==> st[k] is Free),
    ensures
        lists[level_of(i) as int].contains(i),
        links_ok(
            levels,
            st2,
            lists.update(
                level_of(i) as int,
                lists[level_of(i) as int].remove(lists[level_of(i) as int].index_of(i)),
            ),
        ),
        lists[level_of(i) as int].index_of(i) == 0 ==> lists[level_of(i) as int].remove(0)
            == lists[level_of(i) as int].drop_first(),
        lists[level_of(i) as int][0] == i ==> lists[level_of(i) as int].index_of(i) == 0,
{
    let level = level_of(i) as int;
    lemma_level_in_tree(i, levels);
    assert(lists[level].contains(i));
    let at = lists[level].index_of(i);
    assert(0 <= at < lists[level].len() && lists[level][at] == i);
    let shorter = lists[level].remove(at);
    let lists2 = lists.update(level, shorter);
    assert(lists[level].no_duplicates());
    assert(lists[level].remove(0) =~= lists[level].drop_first());
    assert forall|k: int| 0 <= k < shorter.len() implies #[trigger] shorter[k] == lists[level][if k
        < at {
        k
    } else {
        k + 1
    }] by {}
    assert forall|l: int, j: int| 0 <= l < levels && 0 <= j < lists2[l].len() implies {
        &&& level_of(#[trigger] lists2[l][j]) == l
        &&& lists2[l][j] < node_count(levels)
        &&& st2[lists2[l][j] as int] is Free
    } by {
        if l == level {
            let o = if j < at {
                j
            } else {
                j + 1
            };
            assert(lists2[l][j] == lists[l][o]);
            assert(level_of(lists[l][o]) == l);
        } else {
            assert(lists2[l][j] == lists[l][j]);
            assert(level_of(lists[l][j]) == l);
        }
    }
    assert forall|l: int| 0 <= l < levels implies (#[trigger] lists2[l]).no_duplicates() by {
        assert(lists[l].no_duplicates());
        if l == level {
            assert forall|a: int, b: int|
                0 <= a < shorter.len() && 0 <= b < shorter.len() && a != b implies shorter[a]
                != shorter[b] by {
                assert(shorter[a] == lists[l][if a < at {
                    a
                } else {
                    a + 1
                }]);
                assert(shorter[b] == lists[l][if b < at {
                    b
                } else {
                    b + 1
                }]);
            }
        }
    }
    assert forall|k: int| 0 <= k < node_count(levels) && #[trigger] st2[k] is Free implies lists2[level_of(
        k as nat,
    ) as int].contains(k as nat) by {
        let l = level_of(k as nat) as int;
        lemma_level_in_tree(k as nat, levels);
        assert(st[k] is Free);
        assert(lists[l].contains(k as nat));
        let j = choose|j: int| 0 <= j < lists[l].len() && lists[l][j] == k as nat;
        if l == level {
            if j < at {
                assert(shorter[j] == k as nat);
            } else {
                assert(shorter[j - 1] == k as nat);
            }
        } else {
            assert(lists2[l][j] == k as nat);
        }
    }
}

} // verus!
