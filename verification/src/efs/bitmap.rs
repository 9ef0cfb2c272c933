//! Allocation bitmaps: one bit per block or inode of a group, set when taken.
use vstd::prelude::*;

verus! {

/// Whether bit `k` of `byte` is set.
pub open spec fn byte_bit(byte: u8, k: int) -> bool {
    byte & (1u8 << (k as u8)) != 0
}

/// Whether `bit` is taken.
pub open spec fn taken(map: Seq<u8>, bit: int) -> bool {
    byte_bit(map[bit / 8], bit % 8)
}

/// `map` with `bit` taken.
pub open spec fn with_bit(map: Seq<u8>, bit: int) -> Seq<u8> {
    map.update(bit / 8, map[bit / 8] | (1u8 << ((bit % 8) as u8)))
}

/// `map` with `bit` free.
pub open spec fn without_bit(map: Seq<u8>, bit: int) -> Seq<u8> {
    map.update(bit / 8, map[bit / 8] & !(1u8 << ((bit % 8) as u8)))
}

/// `map` with the `len` bits from `bit` on taken.
pub open spec fn with_run(map: Seq<u8>, bit: int, len: int) -> Seq<u8>
    decreases len,
{
    if len <= 0 {
        map
    } else {
        with_bit(with_run(map, bit, len - 1), bit + len - 1)
    }
}

/// The first free bit in `from..max`.
pub open spec fn first_free(map: Seq<u8>, from: int, max: int) -> Option<int>
    decreases max - from,
{
    if from >= max {
        None
    } else if !taken(map, from) {
        Some(from)
    } else {
        first_free(map, from + 1, max)
    }
}

/// The length of the free run at `start`, counting no more than `want` bits and
/// none at or past `max`.
pub open spec fn run_length(map: Seq<u8>, max: int, want: int, start: int) -> int
    decreases want,
{
    if start >= max || want <= 0 || taken(map, start) {
        0
    } else {
        1 + run_length(map, max, want - 1, start + 1)
    }
}

/// The first free run of `want` bits in `from..max`, or failing that the longest
/// shorter run, the earliest among equals; `best` is what was seen before `from`.
pub open spec fn best_run(
    map: Seq<u8>,
    max: int,
    want: int,
    from: int,
    best: Option<(int, int)>,
) -> Option<(int, int)>
    decreases max - from,
{
    if from >= max {
        best
    } else if taken(map, from) {
        best_run(map, max, want, from + 1, best)
    } else {
        let len = run_length(map, max, want, from);
        if len >= want {
            Some((from, len))
        } else if len <= 0 || from + len > max {
            best
        } else if best is None || len > best->Some_0.1 {
            best_run(map, max, want, from + len, Some((from, len)))
        } else {
            best_run(map, max, want, from + len, best)
        }
    }
}

proof fn lemma_set_byte(b: u8, k: u8, j: u8)
    by (bit_vector)
    requires
        k < 8,
        j < 8,
    ensures
        ((b | (1u8 << k)) & (1u8 << j) != 0) == (j == k || b & (1u8 << j) != 0),
        ((b & !(1u8 << k)) & (1u8 << j) != 0) == (j != k && b & (1u8 << j) != 0),
{
}

proof fn lemma_full_byte(j: u8)
    by (bit_vector)
    requires
        j < 8,
    ensures
        0xFFu8 & (1u8 << j) != 0,
{
}

/// Taking a bit takes that bit and no other; freeing it frees that bit and no
/// other.
pub proof fn bit_updates(map: Seq<u8>, bit: int, other: int)
    requires
        0 <= bit < 8 * map.len(),
        0 <= other < 8 * map.len(),
    ensures
        taken(with_bit(map, bit), other) == (other == bit || taken(map, other)),
        taken(without_bit(map, bit), other) == (other != bit && taken(map, other)),
        with_bit(map, bit).len() == map.len(),
        without_bit(map, bit).len() == map.len(),
{
    lemma_set_byte(map[bit / 8], (bit % 8) as u8, (other % 8) as u8);
}

/// Taking a run takes exactly the bits of the run.
pub proof fn run_updates(map: Seq<u8>, bit: int, len: int, other: int)
    requires
        0 <= bit,
        0 <= len,
        bit + len <= 8 * map.len(),
        0 <= other < 8 * map.len(),
    ensures
        taken(with_run(map, bit, len), other) == (bit <= other < bit + len || taken(map, other)),
        with_run(map, bit, len).len() == map.len(),
    decreases len,
{
    if len > 0 {
        run_updates(map, bit, len - 1, other);
        bit_updates(with_run(map, bit, len - 1), bit + len - 1, other);
    }
}

/// What [`first_free`] finds is free, in range, and has only taken bits before
/// it; when it finds nothing, nothing is free.
pub proof fn first_free_is_free(map: Seq<u8>, from: int, max: int)
    ensures
        match first_free(map, from, max) {
            Some(b) => from <= b < max && !taken(map, b) && (forall|j: int|
                from <= j < b ==> #[trigger] taken(map, j)),
            None => forall|j: int| from <= j < max ==> #[trigger] taken(map, j),
        },
    decreases max - from,
{
    if from < max && taken(map, from) {
        first_free_is_free(map, from + 1, max);
    }
}

/// The bits [`run_length`] counts are free and in range.
pub proof fn run_length_is_free(map: Seq<u8>, max: int, want: int, start: int)
    ensures
        0 <= run_length(map, max, want, start),
        want >= 0 ==> run_length(map, max, want, start) <= want,
        start < max ==> start + run_length(map, max, want, start) <= max,
        run_length(map, max, want, start) > 0 <==> (start < max && want > 0 && !taken(map, start)),
        forall|j: int|
            start <= j < start + run_length(map, max, want, start) ==> !#[trigger] taken(map, j),
    decreases want,
{
    if start < max && want > 0 && !taken(map, start) {
        run_length_is_free(map, max, want - 1, start + 1);
    }
}

/// What [`best_run`] finds is a non-empty free run of at most `want` bits in
/// range; it finds one whenever any bit is free.
pub proof fn best_run_is_free(
    map: Seq<u8>,
    max: int,
    want: int,
    from: int,
    best: Option<(int, int)>,
)
    requires
        want > 0,
        0 <= from,
        best matches Some((b, n)) ==> 0 <= b && 0 < n <= want && b + n <= max && (forall|j: int|
            b <= j < b + n ==> !#[trigger] taken(map, j)),
    ensures
        best_run(map, max, want, from, best) matches Some((b, n)) ==> 0 <= b && 0 < n <= want && b
            + n <= max && (forall|j: int| b <= j < b + n ==> !#[trigger] taken(map, j)),
        best_run(map, max, want, from, best) is None ==> best is None && (forall|j: int|
            from <= j < max ==> #[trigger] taken(map, j)),
    decreases max - from,
{
    if from < max {
        if taken(map, from) {
            best_run_is_free(map, max, want, from + 1, best);
        } else {
            run_length_is_free(map, max, want, from);
            let len = run_length(map, max, want, from);
            if len < want {
                if best is None || len > best->Some_0.1 {
                    best_run_is_free(map, max, want, from + len, Some((from, len)));
                } else {
                    best_run_is_free(map, max, want, from + len, best);
                }
            }
        }
    }
}

/// Whether the `n` bits from `x` on lie below `max` and are all free.
pub open spec fn free_run(map: Seq<u8>, max: int, x: int, n: int) -> bool {
    &&& 0 <= x
    &&& x + n <= max
    &&& forall|j: int| x <= j < x + n ==> !#[trigger] taken(map, j)
}

/// A run that is cut short of `want` ends at a taken bit or at the end.
proof fn lemma_run_ends(map: Seq<u8>, max: int, want: int, start: int)
    requires
        start < max,
        run_length(map, max, want, start) < want,
    ensures
        start + run_length(map, max, want, start) < max ==> taken(
            map,
            start + run_length(map, max, want, start),
        ),
    decreases want,
{
    if want > 0 && !taken(map, start) {
        if start + 1 < max {
            lemma_run_ends(map, max, want - 1, start + 1);
        } else {
            assert(run_length(map, max, want - 1, start + 1) == 0);
        }
    }
}

/// What a search that has come to `from` knows: no free run crosses `from`, and
/// `best` is the longest run before it, the lowest of that length.
spec fn searched(map: Seq<u8>, max: int, want: int, from: int, best: Option<(int, int)>) -> bool {
    &&& 0 <= from <= max
    &&& from == 0 || from == max || taken(map, from - 1) || taken(map, from)
    &&& match best {
        None => forall|x: int| 0 <= x < from ==> #[trigger] taken(map, x),
        Some((b, n)) => {
            &&& 0 < n < want
            &&& b + n <= from
            &&& free_run(map, max, b, n)
            &&& forall|x: int| x < b ==> !#[trigger] free_run(map, max, x, n)
            &&& forall|x: int| x < from ==> !#[trigger] free_run(map, max, x, n + 1)
        },
    }
}

/// Whether `(b, n)` is the run to take for `want` bits: `n` bits are free from
/// `b` on and from nowhere below it, and where that is less than was wanted, no
/// longer run is free anywhere.
pub open spec fn best_of(map: Seq<u8>, max: int, want: int, b: int, n: int) -> bool {
    &&& 0 < n <= want
    &&& free_run(map, max, b, n)
    &&& forall|x: int| x < b ==> !#[trigger] free_run(map, max, x, n)
    &&& n < want ==> forall|x: int| !#[trigger] free_run(map, max, x, n + 1)
}

proof fn lemma_searched(map: Seq<u8>, max: int, want: int, from: int, best: Option<(int, int)>)
    requires
        want > 0,
        searched(map, max, want, from, best),
    ensures
        match best_run(map, max, want, from, best) {
            Some((b, n)) => best_of(map, max, want, b, n),
            None => forall|x: int| 0 <= x < max ==> #[trigger] taken(map, x),
        },
    decreases max - from,
{
    if from >= max {
        if let Some((b, n)) = best {
            assert forall|x: int| !#[trigger] free_run(map, max, x, n + 1) by {
                if x >= from {
                    assert(x + n + 1 > max);
                }
            }
        }
    } else if taken(map, from) {
        if let Some((b, n)) = best {
            assert forall|x: int| x < from + 1 implies !#[trigger] free_run(map, max, x, n + 1) by {
                if x == from && free_run(map, max, x, n + 1) {
                    assert(!taken(map, from));
                }
            }
        }
        lemma_searched(map, max, want, from + 1, best);
    } else {
        run_length_is_free(map, max, want, from);
        let len = run_length(map, max, want, from);
        // A run from below `from` cannot reach it.
        assert forall|x: int, n: int| 0 <= x < from && x + n > from implies !#[trigger] free_run(
            map,
            max,
            x,
            n,
        ) by {
            if free_run(map, max, x, n) {
                assert(!taken(map, from - 1) && !taken(map, from));
            }
        }
        assert forall|x: int, n: int|
            x < from && n > 0 && (best is None || n > best->Some_0.1) implies !#[trigger] free_run(
            map,
            max,
            x,
            n,
        ) by {
            if free_run(map, max, x, n) {
                assert(!taken(map, x));
                if best is Some {
                    assert(free_run(map, max, x, best->Some_0.1 + 1));
                }
            }
        }
        assert(free_run(map, max, from, len));
        if len < want {
            lemma_run_ends(map, max, want, from);
            assert forall|x: int, n: int| from <= x < from + len && n > len implies !#[trigger] free_run(
                map,
                max,
                x,
                n,
            ) by {
                if free_run(map, max, x, n) {
                    assert(from + len < max);
                    assert(!taken(map, from + len));
                }
            }
            if best is None || len > best->Some_0.1 {
                lemma_searched(map, max, want, from + len, Some((from, len)));
            } else {
                lemma_searched(map, max, want, from + len, best);
            }
        }
    }
}

/// [`best_run`] gives the first free run of `want` bits; where there is none, the
/// longest free run, the lowest of that length; and nothing exactly if nothing is
/// free.
pub proof fn best_run_is_best(map: Seq<u8>, max: int, want: int)
    requires
        want > 0,
        0 <= max,
    ensures
        match best_run(map, max, want, 0, None) {
            Some((b, n)) => best_of(map, max, want, b, n),
            None => forall|x: int| 0 <= x < max ==> #[trigger] taken(map, x),
        },
{
    lemma_searched(map, max, want, 0, None);
}

/// Whether `bit` is taken.
pub fn test_bit(map: &[u8], bit: usize) -> (r: bool)
    requires
        bit < 8 * map.len(),
    ensures
        r == taken(map@, bit as int),
{
    map[bit / 8] & (1u8 << ((bit % 8) as u8)) != 0
}

/// Takes `bit`.
pub fn set_bit(map: &mut Vec<u8>, bit: usize)
    requires
        bit < 8 * old(map).len(),
    ensures
        final(map)@ == with_bit(old(map)@, bit as int),
{
    let b: u8 = map[bit / 8];
    map[bit / 8] = b | (1u8 << ((bit % 8) as u8));
}

/// Frees `bit`.
pub fn clear_bit(map: &mut Vec<u8>, bit: usize)
    requires
        bit < 8 * old(map).len(),
    ensures
        final(map)@ == without_bit(old(map)@, bit as int),
{
    let b: u8 = map[bit / 8];
    map[bit / 8] = b & !(1u8 << ((bit % 8) as u8));
}

/// Takes the `len` bits from `bit` on.
pub fn set_run(map: &mut Vec<u8>, bit: usize, len: usize)
    requires
        bit + len <= 8 * old(map).len(),
        bit + len <= usize::MAX,
    ensures
        final(map)@ == with_run(old(map)@, bit as int, len as int),
        final(map)@.len() == old(map)@.len(),
{
    let ghost m0 = map@;
    let mut i: usize = 0;
    while i < len
        invariant
            i <= len,
            bit + len <= 8 * map.len(),
            bit + len <= usize::MAX,
            map@.len() == m0.len(),
            map@ == with_run(m0, bit as int, i as int),
        decreases len - i,
    {
        set_bit(map, bit + i);
        i = i + 1;
    }
}

/// The first free bit below `max_bits`. Whole bytes of taken bits are skipped.
pub fn find_free_bit(map: &[u8], max_bits: usize) -> (r: Option<usize>)
    requires
        max_bits <= 8 * map.len(),
    ensures
        match r {
            Some(b) => first_free(map@, 0, max_bits as int) == Some(b as int) && b < max_bits,
            None => first_free(map@, 0, max_bits as int) is None,
        },
{
    let mut bit: usize = 0;
    while bit < max_bits
        invariant
            max_bits <= 8 * map.len(),
            bit <= max_bits,
            first_free(map@, 0, max_bits as int) == first_free(map@, bit as int, max_bits as int),
        decreases max_bits - bit,
    {
        if bit % 8 == 0 && map[bit / 8] == 0xFF && max_bits - bit >= 8 {
            proof {
                lemma_skip_byte(map@, bit as int, max_bits as int);
            }
            bit = bit + 8;
        } else if test_bit(map, bit) {
            bit = bit + 1;
        } else {
            return Some(bit);
        }
    }
    None
}

proof fn lemma_skip_byte(map: Seq<u8>, from: int, max: int)
    requires
        0 <= from,
        from % 8 == 0,
        map[from / 8] == 0xFF,
        from + 8 <= max,
    ensures
        first_free(map, from, max) == first_free(map, from + 8, max),
        forall|j: int| from <= j < from + 8 ==> #[trigger] taken(map, j),
{
    assert forall|j: int| from <= j < from + 8 implies #[trigger] taken(map, j) by {
        lemma_full_byte((j % 8) as u8);
        assert(j / 8 == from / 8);
    }
    assert(taken(map, from) && taken(map, from + 1) && taken(map, from + 2) && taken(map, from + 3)
        && taken(map, from + 4) && taken(map, from + 5) && taken(map, from + 6) && taken(
        map,
        from + 7,
    ));
    reveal_with_fuel(first_free, 9);
}

proof fn lemma_skip_run(map: Seq<u8>, max: int, want: int, from: int, to: int, best: Option<(int, int)>)
    requires
        from <= to <= max,
        forall|j: int| from <= j < to ==> #[trigger] taken(map, j),
    ensures
        best_run(map, max, want, from, best) == best_run(map, max, want, to, best),
    decreases to - from,
{
    if from < to {
        assert(taken(map, from));
        lemma_skip_run(map, max, want, from + 1, to, best);
    }
}

/// Length of the free run starting exactly at `start`, capped at `want`. Zero
/// when `start` itself is taken.
pub fn free_run_at(map: &[u8], max_bits: usize, want: usize, start: usize) -> (n: usize)
    requires
        max_bits <= 8 * map.len(),
        start <= max_bits,
    ensures
        n == run_length(map@, max_bits as int, want as int, start as int),
        n <= want,
        start + n <= max_bits,
{
    let mut bit: usize = start;
    while bit < max_bits && bit - start < want && !test_bit(map, bit)
        invariant
            max_bits <= 8 * map.len(),
            start <= bit <= max_bits,
            bit - start <= want,
            run_length(map@, max_bits as int, want as int, start as int) == (bit - start)
                + run_length(map@, max_bits as int, want - (bit - start), bit as int),
        decreases max_bits - bit,
    {
        bit = bit + 1;
    }
    bit - start
}

/// Finds a free run of at most `want` bits below `max_bits`: the first long
/// enough to satisfy the request, and otherwise the longest there is.
pub fn find_free_run(map: &[u8], max_bits: usize, want: usize) -> (r: Option<(usize, usize)>)
    requires
        max_bits <= 8 * map.len(),
        want > 0,
    ensures
        match r {
            Some((b, n)) => best_run(map@, max_bits as int, want as int, 0, None) == Some(
                (b as int, n as int),
            ) && n > 0 && n <= want && b + n <= max_bits,
            None => best_run(map@, max_bits as int, want as int, 0, None) is None,
        },
{
    let mut best: Option<(usize, usize)> = None;
    let mut bit: usize = 0;
    while bit < max_bits
        invariant
            max_bits <= 8 * map.len(),
            want > 0,
            best matches Some((b, n)) ==> n > 0 && n <= want && b + n <= max_bits,
            best_run(map@, max_bits as int, want as int, 0, None) == best_run(
                map@,
                max_bits as int,
                want as int,
                bit as int,
                match best {
                    Some((b, n)) => Some((b as int, n as int)),
                    None => None,
                },
            ),
            bit <= max_bits,
        decreases max_bits - bit,
    {
        let ghost gbest: Option<(int, int)> = match best {
            Some((b, n)) => Some((b as int, n as int)),
            None => None,
        };
        if bit % 8 == 0 && map[bit / 8] == 0xFF && max_bits - bit >= 8 {
            proof {
                lemma_skip_byte(map@, bit as int, max_bits as int);
                lemma_skip_run(
                    map@,
                    max_bits as int,
                    want as int,
                    bit as int,
                    bit + 8,
                    gbest,
                );
            }
            bit = bit + 8;
        } else if test_bit(map, bit) {
            bit = bit + 1;
        } else {
            let len: usize = free_run_at(map, max_bits, want, bit);
            proof {
                run_length_is_free(map@, max_bits as int, want as int, bit as int);
            }
            if len >= want {
                return Some((bit, len));
            }
            let longer: bool = match best {
                Some((_, n)) => len > n,
                None => true,
            };
            if longer {
                best = Some((bit, len));
            }
            bit = bit + len;
        }
    }
    best
}

} // verus!
