//! Single definition, seen block by block: a function defines no value
//! twice exactly if no block does and no two blocks define the same value.
use vstd::prelude::*;
use crate::function::{arena_defs, block_defs, Function};
use crate::ir::{BasicBlock, Value};

verus! {

/// The values that the block in a slot defines; none for an empty slot.
pub open spec fn slot_defs(slot: Option<BasicBlock>) -> Seq<Value> {
    match slot {
        Some(b) => block_defs(b),
        None => Seq::empty(),
    }
}

/// The two sequences have no value in common.
pub open spec fn disjoint(a: Seq<Value>, b: Seq<Value>) -> bool {
    forall|v: Value| !(a.contains(v) && b.contains(v))
}

pub proof fn lemma_concat_contains(a: Seq<Value>, b: Seq<Value>, v: Value)
    ensures
        (a + b).contains(v) <==> (a.contains(v) || b.contains(v)),
{
    let s = a + b;
    if s.contains(v) {
        let k = choose|k: int| 0 <= k < s.len() && s[k] == v;
        if k < a.len() {
            assert(a[k] == v);
        } else {
            assert(b[k - a.len()] == v);
        }
    }
    if a.contains(v) {
        let k = choose|k: int| 0 <= k < a.len() && a[k] == v;
        assert(s[k] == v);
    }
    if b.contains(v) {
        let k = choose|k: int| 0 <= k < b.len() && b[k] == v;
        assert(s[a.len() + k] == v);
    }
}

/// A concatenation is free of duplicates exactly if both parts are and
/// they have no value in common.
pub proof fn lemma_concat_unique(a: Seq<Value>, b: Seq<Value>)
    ensures
        (a + b).no_duplicates() <==> (a.no_duplicates() && b.no_duplicates() && disjoint(a, b)),
{
    let s = a + b;
    if s.no_duplicates() {
        assert forall|i: int, j: int| 0 <= i < a.len() && 0 <= j < a.len() && i != j implies a[i] != a[j] by {
            assert(s[i] == a[i] && s[j] == a[j]);
        }
        assert forall|i: int, j: int| 0 <= i < b.len() && 0 <= j < b.len() && i != j implies b[i] != b[j] by {
            assert(s[a.len() + i] == b[i] && s[a.len() + j] == b[j]);
        }
        assert forall|v: Value| !(a.contains(v) && b.contains(v)) by {
            if a.contains(v) && b.contains(v) {
                let i = choose|i: int| 0 <= i < a.len() && a[i] == v;
                let j = choose|j: int| 0 <= j < b.len() && b[j] == v;
                assert(s[i] == v && s[a.len() + j] == v);
            }
        }
    }
    if a.no_duplicates() && b.no_duplicates() && disjoint(a, b) {
        assert forall|i: int, j: int| 0 <= i < s.len() && 0 <= j < s.len() && i != j implies s[i] != s[j] by {
            if i < a.len() && j >= a.len() {
                assert(a.contains(a[i]) && b.contains(b[j - a.len()]));
            }
            if j < a.len() && i >= a.len() {
                assert(a.contains(a[j]) && b.contains(b[i - a.len()]));
            }
        }
    }
}

/// A value is among the definitions of an arena exactly if the block in
/// some slot defines it.
pub proof fn lemma_arena_contains(blocks: Seq<Option<BasicBlock>>, v: Value)
    ensures
        arena_defs(blocks).contains(v) <==> exists|i: int| 0 <= i < blocks.len() && slot_defs(#[trigger] blocks[i]).contains(v),
    decreases blocks.len(),
{
    if blocks.len() > 0 {
        let front = blocks.drop_last();
        lemma_arena_contains(front, v);
        lemma_concat_contains(arena_defs(front), slot_defs(blocks.last()), v);
        if arena_defs(blocks).contains(v) {
            if arena_defs(front).contains(v) {
                let i = choose|i: int| 0 <= i < front.len() && slot_defs(#[trigger] front[i]).contains(v);
                assert(blocks[i] == front[i]);
            } else {
                assert(slot_defs(blocks[blocks.len() - 1]).contains(v));
            }
        }
        if exists|i: int| 0 <= i < blocks.len() && slot_defs(#[trigger] blocks[i]).contains(v) {
            let i = choose|i: int| 0 <= i < blocks.len() && slot_defs(#[trigger] blocks[i]).contains(v);
            if i < front.len() {
                assert(front[i] == blocks[i]);
            }
        }
    }
}

/// The blocks of the arena define no value twice between them.
pub open spec fn slots_unique(blocks: Seq<Option<BasicBlock>>) -> bool {
    &&& forall|i: int| 0 <= i < blocks.len() ==> slot_defs(#[trigger] blocks[i]).no_duplicates()
    &&& forall|i: int, j: int| 0 <= i < j < blocks.len() ==> disjoint(slot_defs(#[trigger] blocks[i]), slot_defs(#[trigger] blocks[j]))
}

/// The definitions of an arena are free of duplicates exactly if no block
/// defines a value twice and no two blocks define the same value.
pub proof fn lemma_arena_unique(blocks: Seq<Option<BasicBlock>>)
    ensures
        arena_defs(blocks).no_duplicates() <==> slots_unique(blocks),
    decreases blocks.len(),
{
    if blocks.len() > 0 {
        let front = blocks.drop_last();
        let last = slot_defs(blocks.last());
        lemma_arena_unique(front);
        lemma_concat_unique(arena_defs(front), last);
        if arena_defs(blocks).no_duplicates() {
            assert forall|i: int| 0 <= i < blocks.len() implies slot_defs(#[trigger] blocks[i]).no_duplicates() by {
                if i < front.len() {
                    assert(front[i] == blocks[i]);
                }
            }
            assert forall|i: int, j: int| 0 <= i < j < blocks.len() implies disjoint(slot_defs(#[trigger] blocks[i]), slot_defs(#[trigger] blocks[j])) by {
                if j < front.len() {
                    assert(front[i] == blocks[i] && front[j] == blocks[j]);
                } else {
                    assert forall|v: Value| !(slot_defs(blocks[i]).contains(v) && slot_defs(blocks[j]).contains(v)) by {
                        if slot_defs(blocks[i]).contains(v) {
                            assert(front[i] == blocks[i]);
                            lemma_arena_contains(front, v);
                        }
                    }
                }
            }
        }
        if slots_unique(blocks) {
            assert forall|i: int| 0 <= i < front.len() implies slot_defs(#[trigger] front[i]).no_duplicates() by {
                assert(front[i] == blocks[i]);
            }
            assert forall|i: int, j: int| 0 <= i < j < front.len() implies disjoint(slot_defs(#[trigger] front[i]), slot_defs(#[trigger] front[j])) by {
                assert(front[i] == blocks[i] && front[j] == blocks[j]);
            }
            assert(slot_defs(blocks[blocks.len() - 1]).no_duplicates());
            assert forall|v: Value| !(arena_defs(front).contains(v) && last.contains(v)) by {
                if arena_defs(front).contains(v) && last.contains(v) {
                    lemma_arena_contains(front, v);
                    let i = choose|i: int| 0 <= i < front.len() && slot_defs(#[trigger] front[i]).contains(v);
                    assert(front[i] == blocks[i]);
                    assert(disjoint(slot_defs(blocks[i]), slot_defs(blocks[blocks.len() - 1])));
                }
            }
        }
    } else {
        assert(arena_defs(blocks).len() == 0);
    }
}

/// Every value that the function defines is below the counter that fresh
/// values are taken from.
pub open spec fn defs_below(f: Function) -> bool {
    forall|i: int, v: Value| 0 <= i < f.blocks@.len() && #[trigger] slot_defs(f.blocks@[i]).contains(v) ==> v.0 < f.next_value
}

} // verus!
