//! Pyramids: every tile of every level, one after the other.

use vstd::prelude::*;

verus! {

/// The tiles of the first `n` levels, level by level, each level in the
/// order of its cover.
pub open spec fn pyramid(counts: Seq<usize>, n: int) -> Seq<(u8, usize)>
    decreases n,
{
    if n <= 0 {
        Seq::empty()
    } else {
        pyramid(counts, n - 1) + Seq::new(
            counts[n - 1] as nat,
            |i: int| ((n - 1) as u8, i as usize),
        )
    }
}

/// A tile stands at a place of the pyramid.
pub open spec fn stands_at(
    counts: Seq<usize>,
    max_level: u8,
    tile: (u8, usize),
    k: int,
) -> bool {
    let all = pyramid(counts, max_level + 1);
    0 <= k < all.len() && all[k] == tile
}

proof fn levels_follow(counts: Seq<usize>, l: int, n: int)
    requires
        0 <= l <= n <= 256,
    ensures
        pyramid(counts, l).len() <= pyramid(counts, n).len(),
        pyramid(counts, n).take(pyramid(counts, l).len() as int) == pyramid(counts, l),
    decreases n - l,
{
    let low = pyramid(counts, l);
    let all = pyramid(counts, n);
    if l < n {
        levels_follow(counts, l, n - 1);
        let before = pyramid(counts, n - 1);
        assert(all.take(low.len() as int) =~= before.take(low.len() as int));
    } else {
        assert(all.take(low.len() as int) =~= low);
    }
}

/// Every tile of every level is in the pyramid, behind all the tiles of the
/// levels before its own and behind those of its own that come before it.
pub proof fn tile_place(counts: Seq<usize>, n: int, l: int, i: int)
    requires
        0 <= l < n <= 256,
        0 <= i < counts[l],
    ensures
        ({
            let k = pyramid(counts, l).len() + i;
            &&& k < pyramid(counts, n).len()
            &&& pyramid(counts, n)[k] == (l as u8, i as usize)
        }),
{
    levels_follow(counts, l + 1, n);
    let low = pyramid(counts, l + 1);
    let k = pyramid(counts, l).len() + i;
    assert(low[k] == (l as u8, i as usize));
    assert(pyramid(counts, n).take(low.len() as int)[k] == low[k]);
}

/// Nothing else is in the pyramid.
pub proof fn place_is_known(counts: Seq<usize>, n: int, k: int)
    requires
        0 <= n <= 256,
        0 <= k < pyramid(counts, n).len(),
    ensures
        ({
            let (l, i) = pyramid(counts, n)[k];
            &&& l < n
            &&& i < counts[l as int]
            &&& k == pyramid(counts, l as int).len() + i
        }),
    decreases n,
{
    let before = pyramid(counts, n - 1);
    if k < before.len() {
        place_is_known(counts, n - 1, k);
    }
}

proof fn empty_levels_add_nothing(counts: Seq<usize>, from: int, to: int)
    requires
        0 <= from <= to,
        forall|l: int| from <= l < to ==> #[trigger] counts[l] == 0,
    ensures
        pyramid(counts, to) == pyramid(counts, from),
    decreases to - from,
{
    if from < to {
        empty_levels_add_nothing(counts, from, to - 1);
        assert(counts[to - 1] == 0);
        assert(pyramid(counts, to) =~= pyramid(counts, to - 1));
    }
}

/// The tile that follows another, or the first: levels from the finest up
/// to the last in turn, and every tile of a level's cover in order. `counts`
/// says how many tiles the cover of each level has.
pub fn next_tile(at: Option<(u8, usize)>, counts: &Vec<usize>, max_level: u8) -> (r: Option<
    (u8, usize),
>)
    requires
        counts@.len() > max_level,
        at matches Some(t) ==> t.0 <= max_level && t.1 < counts@[t.0 as int],
    ensures
        ({
            let all = pyramid(counts@, max_level + 1);
            &&& at is None ==> r == (if all.len() > 0 {
                Some(all[0])
            } else {
                None
            })
            &&& at matches Some(t) ==> forall|k: int| #[trigger]
                stands_at(counts@, max_level, t, k) ==> r == (if k + 1 < all.len() {
                    Some(all[k + 1])
                } else {
                    None
                })
        }),
{
    let ghost all = pyramid(counts@, max_level + 1);
    let ghost place: int = match at {
        None => -1,
        Some(t) => pyramid(counts@, t.0 as int).len() + t.1,
    };
    proof {
        if let Some(t) = at {
            assert forall|k: int| #[trigger] stands_at(counts@, max_level, t, k) implies k
                == place by {
                place_is_known(counts@, max_level + 1, k);
            }
        }
    }
    let start: u16 = match at {
        None => 0,
        Some((l, i)) => {
            if i + 1 < counts[l as usize] {
                proof {
                    tile_place(counts@, max_level + 1, l as int, i + 1);
                }
                return Some((l, i + 1));
            }
            l as u16 + 1
        },
    };
    assert(pyramid(counts@, start as int).len() == place + 1);
    let mut level: u16 = start;
    while level <= max_level as u16
        invariant
            start <= level <= max_level + 1,
            counts@.len() > max_level,
            all == pyramid(counts@, max_level + 1),
            pyramid(counts@, start as int).len() == place + 1,
            forall|l: int| start <= l < level ==> #[trigger] counts@[l] == 0,
            at is None ==> place == -1,
            at matches Some(t) ==> forall|k: int| #[trigger]
                stands_at(counts@, max_level, t, k) ==> k == place,
        decreases max_level + 1 - level,
    {
        if counts[level as usize] > 0 {
            proof {
                empty_levels_add_nothing(counts@, start as int, level as int);
                tile_place(counts@, max_level + 1, level as int, 0);
            }
            return Some((level as u8, 0));
        }
        level = level + 1;
    }
    proof {
        empty_levels_add_nothing(counts@, start as int, max_level + 1);
    }
    None
}

} // verus!
