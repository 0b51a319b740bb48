//! Which blocks a cache keeps.
use crate::block_cache::{place_of_block, used, with_new, without_range};
use vstd::prelude::*;

verus! {

/// Blocks in order of use, after new ones came one by one.
pub open spec fn after_news(blocks: Seq<u64>, capacity: int, news: Seq<u64>) -> Seq<u64>
    decreases news.len(),
{
    if news.len() == 0 {
        blocks
    } else {
        with_new(after_news(blocks, capacity, news.drop_last()), capacity, news.last())
    }
}

/// A cached block is found, at a place where it is, and no other is.
pub proof fn law_cached_block_is_found(blocks: Seq<u64>, b: u64)
    ensures
        place_of_block(blocks, b) is Some <==> blocks.contains(b),
        place_of_block(blocks, b) matches Some(i) ==> 0 <= i < blocks.len() && blocks[i] == b,
    decreases blocks.len(),
{
    if blocks.len() > 0 && blocks[0] != b {
        let rest = blocks.drop_first();
        law_cached_block_is_found(rest, b);
        if blocks.contains(b) {
            let k = choose|k: int| 0 <= k < blocks.len() && blocks[k] == b;
            assert(rest[k - 1] == b);
        }
        if rest.contains(b) {
            let k = choose|k: int| 0 <= k < rest.len() && rest[k] == b;
            assert(blocks[k + 1] == b);
        }
    }
}

proof fn lemma_after_news(blocks: Seq<u64>, capacity: int, news: Seq<u64>)
    requires
        1 <= capacity,
        blocks.len() <= capacity,
    ensures
        after_news(blocks, capacity, news).len() <= capacity,
        ({
            let all = blocks + news;
            let now = after_news(blocks, capacity, news);
            now.len() == (if all.len() <= capacity {
                all.len() as int
            } else {
                capacity
            }) && now == all.skip(all.len() - now.len())
        }),
    decreases news.len(),
{
    let all = blocks + news;
    if news.len() == 0 {
        assert(all =~= blocks);
        assert(blocks.skip(0) =~= blocks);
    } else {
        let front = news.drop_last();
        lemma_after_news(blocks, capacity, front);
        let before = after_news(blocks, capacity, front);
        let now = after_news(blocks, capacity, news);
        assert(all =~= (blocks + front).push(news.last()));
        assert(now =~= all.skip(all.len() - now.len()));
    }
}

/// A block that was just used outlasts fewer new ones than there is room for;
/// as many as there is room for drive it out, if it is none of them.
pub proof fn law_block_used_last_stays_longest(blocks: Seq<u64>, capacity: int, i: int, news: Seq<u64>)
    requires
        1 <= capacity,
        blocks.len() <= capacity,
        0 <= i < blocks.len(),
    ensures
        ({
            let now = after_news(used(blocks, i), capacity, news);
            &&& now.len() <= capacity
            &&& news.len() < capacity ==> now.contains(blocks[i])
            &&& news.len() >= capacity && !news.contains(blocks[i]) ==> !now.contains(blocks[i])
            &&& forall|k: int| 0 <= k < news.len() && news.len() - k <= capacity ==> now.contains(#[trigger] news[k])
        }),
{
    let had = used(blocks, i);
    let now = after_news(had, capacity, news);
    let all = had + news;
    lemma_after_news(had, capacity, news);
    assert(had.last() == blocks[i]);
    let gone = all.len() - now.len();
    if news.len() < capacity {
        assert(now[had.len() - 1 - gone] == blocks[i]);
    }
    if news.len() >= capacity && !news.contains(blocks[i]) && now.contains(blocks[i]) {
        let k = choose|k: int| 0 <= k < now.len() && now[k] == blocks[i];
        assert(all[k + gone] == blocks[i]);
        assert(news[k + gone - had.len()] == blocks[i]);
    }
    assert forall|k: int| 0 <= k < news.len() && news.len() - k <= capacity implies now.contains(#[trigger] news[k]) by {
        assert(now[had.len() + k - gone] == news[k]);
    }
}

/// Using a block neither adds one nor loses one.
pub proof fn law_used_blocks_all_stay(blocks: Seq<u64>, i: int, b: u64)
    requires
        0 <= i < blocks.len(),
    ensures
        used(blocks, i).len() == blocks.len(),
        used(blocks, i).contains(b) <==> blocks.contains(b),
{
    let now = used(blocks, i);
    if blocks.contains(b) {
        let k = choose|k: int| 0 <= k < blocks.len() && blocks[k] == b;
        if k < i {
            assert(now[k] == b);
        } else if k > i {
            assert(now[k - 1] == b);
        } else {
            assert(now[now.len() - 1] == b);
        }
    }
    if now.contains(b) {
        let k = choose|k: int| 0 <= k < now.len() && now[k] == b;
        if k < i {
            assert(blocks[k] == b);
        } else if k < now.len() - 1 {
            assert(blocks[k + 1] == b);
        } else {
            assert(blocks[i] == b);
        }
    }
}

/// A write drops the blocks that it touches, and no other.
pub proof fn law_touched_blocks_are_dropped(blocks: Seq<u64>, first: int, last: int, b: u64)
    ensures
        without_range(blocks, first, last).contains(b) <==> blocks.contains(b) && !(first <= b <= last),
    decreases blocks.len(),
{
    if blocks.len() > 0 {
        let front = blocks.drop_last();
        law_touched_blocks_are_dropped(front, first, last, b);
        let kept = without_range(front, first, last);
        let now = without_range(blocks, first, last);
        assert(blocks =~= front.push(blocks.last()));
        lemma_pushed(front, blocks.last(), b);
        lemma_pushed(kept, blocks.last(), b);
    }
}

proof fn lemma_pushed(s: Seq<u64>, x: u64, b: u64)
    ensures
        s.push(x).contains(b) <==> s.contains(b) || x == b,
{
    let t = s.push(x);
    assert(t[s.len() as int] == x);
    if s.contains(b) {
        let k = choose|k: int| 0 <= k < s.len() && s[k] == b;
        assert(t[k] == b);
    }
    if t.contains(b) {
        let k = choose|k: int| 0 <= k < t.len() && t[k] == b;
        if k < s.len() {
            assert(s[k] == b);
        }
    }
}

} // verus!
