//! Binary trees of BLAKE3 digests, and proofs of what stands at their leaves.
use vstd::prelude::*;
use vstd::relations::{sorted_by, total_ordering};

verus! {

/// The BLAKE3 digest of bytes.
pub uninterp spec fn blake3_digest(bytes: Seq<u8>) -> Seq<u8>;

/// A `blake3::Hasher` that is fed two runs of bytes: the digest of the one run
/// that they make up together. Nothing more is stated of a digest.
#[verifier::external_body]
pub(crate) fn digest(first: &[u8], second: &[u8]) -> (out: [u8; 32])
    ensures
        out@ == blake3_digest(first@ + second@),
{
    let mut hasher = blake3::Hasher::new();
    hasher.update(first);
    hasher.update(second);
    *hasher.finalize().as_bytes()
}

/// The order of bytes as words: by the first byte that differs.
pub open spec fn word_order(a: Seq<u8>, b: Seq<u8>) -> bool
    decreases a.len(),
{
    if a.len() == 0 {
        true
    } else if b.len() == 0 {
        false
    } else {
        a[0] < b[0] || (a[0] == b[0] && word_order(a.skip(1), b.skip(1)))
    }
}

/// The digests of a list as sequences of bytes.
pub open spec fn bytes_of(list: Seq<[u8; 32]>) -> Seq<Seq<u8>> {
    Seq::new(list.len(), |i: int| list[i]@)
}

/// Whether digests stand in the order of words.
pub open spec fn ascending(list: Seq<Seq<u8>>) -> bool {
    sorted_by(list, |a: Seq<u8>, b: Seq<u8>| word_order(a, b))
}

/// `sort_unstable` on arrays of bytes: the same digests in the order of words.
#[verifier::external_body]
pub(crate) fn sort_digests(list: &mut Vec<[u8; 32]>)
    ensures
        ascending(bytes_of(final(list)@)),
        bytes_of(final(list)@).to_multiset() == bytes_of(old(list)@).to_multiset(),
        final(list)@.len() == old(list)@.len(),
{
    list.sort_unstable();
}

proof fn lemma_words_same(a: Seq<u8>)
    ensures
        word_order(a, a),
    decreases a.len(),
{
    if a.len() > 0 {
        lemma_words_same(a.skip(1));
    }
}

proof fn lemma_words_meet(a: Seq<u8>, b: Seq<u8>)
    requires
        word_order(a, b),
        word_order(b, a),
    ensures
        a == b,
    decreases a.len(),
{
    if a.len() > 0 && b.len() > 0 {
        lemma_words_meet(a.skip(1), b.skip(1));
        assert(a =~= seq![a[0]] + a.skip(1));
        assert(b =~= seq![b[0]] + b.skip(1));
    } else {
        assert(a =~= b);
    }
}

proof fn lemma_words_chain(a: Seq<u8>, b: Seq<u8>, c: Seq<u8>)
    requires
        word_order(a, b),
        word_order(b, c),
    ensures
        word_order(a, c),
    decreases a.len(),
{
    if a.len() > 0 && a[0] == b[0] && b[0] == c[0] {
        lemma_words_chain(a.skip(1), b.skip(1), c.skip(1));
    }
}

proof fn lemma_words_total(a: Seq<u8>, b: Seq<u8>)
    ensures
        word_order(a, b) || word_order(b, a),
    decreases a.len(),
{
    if a.len() > 0 && b.len() > 0 {
        lemma_words_total(a.skip(1), b.skip(1));
    }
}

/// The order of words is total.
proof fn lemma_words_ordered()
    ensures
        total_ordering(|x: Seq<u8>, y: Seq<u8>| word_order(x, y)),
{
    let leq = |x: Seq<u8>, y: Seq<u8>| word_order(x, y);
    assert forall|x: Seq<u8>| #[trigger] leq(x, x) by {
        lemma_words_same(x);
    }
    assert forall|x: Seq<u8>, y: Seq<u8>| #[trigger] leq(x, y) && #[trigger] leq(y, x) implies x
        == y by {
        lemma_words_meet(x, y);
    }
    assert forall|x: Seq<u8>, y: Seq<u8>, z: Seq<u8>| #[trigger]
        leq(x, y) && #[trigger] leq(y, z) implies leq(x, z) by {
        lemma_words_chain(x, y, z);
    }
    assert forall|x: Seq<u8>, y: Seq<u8>| #[trigger] leq(x, y) || #[trigger] leq(y, x) by {
        lemma_words_total(x, y);
    }
}

/// Digests can be put in order.
pub(crate) proof fn lemma_can_sort(list: Seq<Seq<u8>>) -> (sorted: Seq<Seq<u8>>)
    ensures
        ascending(sorted),
        sorted.to_multiset() == list.to_multiset(),
{
    let leq = |x: Seq<u8>, y: Seq<u8>| word_order(x, y);
    lemma_words_ordered();
    list.lemma_sort_by_ensures(leq);
    list.sort_by(leq)
}

/// There is one way to put digests in order.
pub proof fn law_one_order(a: Seq<Seq<u8>>, b: Seq<Seq<u8>>)
    requires
        ascending(a),
        ascending(b),
        a.to_multiset() == b.to_multiset(),
    ensures
        a == b,
{
    let leq = |x: Seq<u8>, y: Seq<u8>| word_order(x, y);
    lemma_words_ordered();
    vstd::seq_lib::lemma_sorted_unique(a, b, leq);
}

/// The digest that stands for nothing.
pub open spec fn zero_digest() -> Seq<u8> {
    Seq::new(32, |i: int| 0u8)
}

/// Whether a number is a power of two.
pub open spec fn power_of_two(n: nat) -> bool
    decreases n,
{
    n == 1 || (n > 1 && n % 2 == 0 && power_of_two(n / 2))
}

/// The least power of two that is no less than a number.
pub open spec fn ceil_power(n: nat) -> nat
    decreases n,
{
    if n <= 1 {
        1
    } else {
        2 * ceil_power((n + 1) / 2)
    }
}

/// Rounding up gives a power of two, no less than the number, and the least such.
pub proof fn law_ceil_power(n: nat, p: nat)
    ensures
        power_of_two(ceil_power(n)),
        n <= ceil_power(n),
        power_of_two(p) && n <= p ==> ceil_power(n) <= p,
        n > 0 ==> ceil_power(n) < 2 * n,
    decreases n,
{
    if n > 1 {
        law_ceil_power((n + 1) / 2, p / 2);
        assert((2 * ceil_power((n + 1) / 2)) / 2 == ceil_power((n + 1) / 2));
    }
}

/// A list of digests filled up with zero digests to a power of two.
pub open spec fn padded(leaves: Seq<Seq<u8>>) -> Seq<Seq<u8>> {
    leaves + Seq::new(
        (ceil_power(leaves.len()) - leaves.len()) as nat,
        |i: int| zero_digest(),
    )
}

/// The level above a level of a tree: each pair of neighbours under one digest.
pub open spec fn level_above(level: Seq<Seq<u8>>) -> Seq<Seq<u8>> {
    Seq::new(level.len() / 2, |i: int| blake3_digest(level[2 * i] + level[2 * i + 1]))
}

/// The digest at the top of the tree over a level.
pub open spec fn tree_top(level: Seq<Seq<u8>>) -> Seq<u8>
    decreases level.len(),
{
    if level.len() <= 1 {
        level[0]
    } else {
        tree_top(level_above(level))
    }
}

/// The neighbour of a position, and whether it stands on the left.
pub open spec fn neighbour(pos: int) -> (int, bool) {
    if pos % 2 == 0 {
        (pos + 1, false)
    } else {
        (pos - 1, true)
    }
}

/// The neighbours on the way from a position of a level to the top.
pub open spec fn way_up(level: Seq<Seq<u8>>, pos: int) -> Seq<(Seq<u8>, bool)>
    decreases level.len(),
{
    if level.len() <= 1 {
        Seq::empty()
    } else {
        seq![(level[neighbour(pos).0], neighbour(pos).1)] + way_up(level_above(level), pos / 2)
    }
}

/// The digest over a digest and its neighbour.
pub open spec fn joined(current: Seq<u8>, step: (Seq<u8>, bool)) -> Seq<u8> {
    if step.1 {
        blake3_digest(step.0 + current)
    } else {
        blake3_digest(current + step.0)
    }
}

/// Where a way up leads from a digest.
pub open spec fn climbed(start: Seq<u8>, way: Seq<(Seq<u8>, bool)>) -> Seq<u8>
    decreases way.len(),
{
    if way.len() == 0 {
        start
    } else {
        climbed(joined(start, way[0]), way.skip(1))
    }
}

/// The way up from every leaf of a complete tree leads to the top.
pub proof fn law_way_up(level: Seq<Seq<u8>>, pos: int)
    requires
        power_of_two(level.len()),
        0 <= pos < level.len(),
    ensures
        climbed(level[pos], way_up(level, pos)) == tree_top(level),
    decreases level.len(),
{
    if level.len() > 1 {
        let above = level_above(level);
        let way = way_up(level, pos);
        law_way_up(above, pos / 2);
        assert(way.skip(1) =~= way_up(above, pos / 2));
        assert(joined(level[pos], way[0]) == above[pos / 2]);
    }
}

/// Whether two runs of bytes, which are not the same, have one digest.
pub open spec fn collide(x: Seq<u8>, y: Seq<u8>) -> bool {
    x != y && blake3_digest(x) == blake3_digest(y)
}

/// Whether two pairs of digests, which are not the same, have one digest over
/// them.
pub open spec fn pairs_collide(x: (Seq<u8>, Seq<u8>), y: (Seq<u8>, Seq<u8>)) -> bool {
    x != y && blake3_digest(x.0 + x.1) == blake3_digest(y.0 + y.1)
}

/// What stands beside each other where a way up has come to a step: the neighbour
/// and the digest so far, the left one first.
pub open spec fn beside(start: Seq<u8>, way: Seq<(Seq<u8>, bool)>, i: int) -> Seq<u8> {
    if way[i].1 {
        way[i].0 + climbed(start, way.take(i))
    } else {
        climbed(start, way.take(i)) + way[i].0
    }
}

/// One way up leads from two digests to one place only where two different runs of
/// bytes on it have one digest. So a proof holds of one leaf, but for a collision.
pub proof fn law_way_binds(a: Seq<u8>, b: Seq<u8>, way: Seq<(Seq<u8>, bool)>)
    requires
        climbed(a, way) == climbed(b, way),
        a != b,
    ensures
        exists|i: int|
            0 <= i < way.len() && collide(#[trigger] beside(a, way, i), beside(b, way, i)),
    decreases way.len(),
{
    if way.len() > 0 {
        let (x, y) = (joined(a, way[0]), joined(b, way[0]));
        if x == y {
            assert(way.take(0) =~= Seq::empty());
            assert(beside(a, way, 0) != beside(b, way, 0)) by {
                let n = way[0].0.len() as int;
                if beside(a, way, 0) == beside(b, way, 0) {
                    if way[0].1 {
                        assert((way[0].0 + a).skip(n) =~= a);
                        assert((way[0].0 + b).skip(n) =~= b);
                    } else {
                        assert((a + way[0].0).len() == (b + way[0].0).len());
                        assert((a + way[0].0).take(a.len() as int) =~= a);
                        assert((b + way[0].0).take(a.len() as int) =~= b);
                    }
                }
            }
            assert(collide(beside(a, way, 0), beside(b, way, 0)));
        } else {
            let rest = way.skip(1);
            law_way_binds(x, y, rest);
            let i = choose|i: int|
                0 <= i < rest.len() && collide(#[trigger] beside(x, rest, i), beside(y, rest, i));
            assert(way.take(i + 1).skip(1) =~= rest.take(i));
            assert(way.take(i + 1)[0] == way[0]);
            assert(rest[i] == way[i + 1]);
            assert(beside(a, way, i + 1) == beside(x, rest, i));
            assert(beside(b, way, i + 1) == beside(y, rest, i));
        }
    }
}

/// The neighbours at a place of a level.
pub open spec fn pair_at(level: Seq<Seq<u8>>, i: int) -> (Seq<u8>, Seq<u8>) {
    (level[2 * i], level[2 * i + 1])
}

/// Whether two trees, one over each of two levels, hold different pairs of digests
/// at one place with one digest over them.
pub open spec fn trees_collide(x: Seq<Seq<u8>>, y: Seq<Seq<u8>>) -> bool
    decreases x.len(),
{
    x.len() > 1 && {
        ||| exists|i: int|
            0 <= i < x.len() / 2 && pairs_collide(#[trigger] pair_at(x, i), pair_at(y, i))
        ||| trees_collide(level_above(x), level_above(y))
    }
}

/// Two complete trees of one size have one top only where their leaves are the
/// same, or where they hold a collision.
pub proof fn law_top_binds(x: Seq<Seq<u8>>, y: Seq<Seq<u8>>)
    requires
        power_of_two(x.len()),
        x.len() == y.len(),
        tree_top(x) == tree_top(y),
    ensures
        x == y || trees_collide(x, y),
    decreases x.len(),
{
    if x.len() == 1 {
        assert(x =~= y);
    } else {
        let (above_x, above_y) = (level_above(x), level_above(y));
        law_top_binds(above_x, above_y);
        if !trees_collide(x, y) {
            assert forall|j: int| 0 <= j < x.len() implies x[j] == y[j] by {
                let i = j / 2;
                assert(above_x[i] == above_y[i]);
                assert(!pairs_collide(pair_at(x, i), pair_at(y, i)));
            }
            assert(x =~= y);
        }
    }
}

/// A way up as it is handed out.
pub open spec fn steps_of(proof_steps: Seq<([u8; 32], bool)>) -> Seq<(Seq<u8>, bool)> {
    Seq::new(proof_steps.len(), |i: int| (proof_steps[i].0@, proof_steps[i].1))
}

/// Tests whether two digests are the same.
pub fn same_digest(a: &[u8; 32], b: &[u8; 32]) -> (same: bool)
    ensures
        same == (a@ == b@),
{
    let mut i: usize = 0;
    while i < 32
        invariant
            i <= 32,
            a@.len() == 32,
            b@.len() == 32,
            forall|j: int| 0 <= j < i ==> a@[j] == b@[j],
        decreases 32 - i,
    {
        if a[i] != b[i] {
            return false;
        }
        i += 1;
    }
    assert(a@ =~= b@);
    true
}

/// The least power of two that is no less than a number.
pub fn round_up(n: usize) -> (p: usize)
    requires
        n <= usize::MAX / 2,
    ensures
        p == ceil_power(n as nat),
    decreases n,
{
    proof {
        law_ceil_power(n as nat, 1);
    }
    if n <= 1 {
        1
    } else {
        2 * round_up((n + 1) / 2)
    }
}

/// Fills a list up with zero digests to a power of two.
pub fn pad(leaves: &mut Vec<[u8; 32]>)
    requires
        old(leaves)@.len() <= usize::MAX / 2,
    ensures
        bytes_of(final(leaves)@) == padded(bytes_of(old(leaves)@)),
{
    let ghost before = leaves@;
    let target: usize = round_up(leaves.len());
    proof {
        law_ceil_power(before.len(), 1);
    }
    while leaves.len() < target
        invariant
            before.len() <= leaves@.len() <= target,
            target == ceil_power(before.len()),
            forall|i: int| 0 <= i < before.len() ==> leaves@[i] == before[i],
            forall|i: int|
                before.len() <= i < leaves@.len() ==> (#[trigger] leaves@[i])@ == zero_digest(),
        decreases target - leaves@.len(),
    {
        let zero = [0u8; 32];
        assert(zero@ =~= zero_digest());
        leaves.push(zero);
    }
    assert(bytes_of(leaves@) =~= padded(bytes_of(before)));
}

/// The level above a level of a tree.
pub fn next_level(level: &Vec<[u8; 32]>) -> (above: Vec<[u8; 32]>)
    ensures
        bytes_of(above@) == level_above(bytes_of(level@)),
{
    let mut above: Vec<[u8; 32]> = Vec::new();
    let half: usize = level.len() / 2;
    assert(level@.len() == level.len());
    let mut i: usize = 0;
    while i < half
        invariant
            i <= half,
            half == level@.len() / 2,
            level@.len() <= usize::MAX,
            above@.len() == i,
            forall|j: int|
                0 <= j < i ==> (#[trigger] above@[j])@ == level_above(bytes_of(level@))[j],
        decreases half - i,
    {
        let over = digest(&level[2 * i], &level[2 * i + 1]);
        above.push(over);
        i += 1;
    }
    assert(bytes_of(above@) =~= level_above(bytes_of(level@)));
    above
}

/// The digest at the top of the tree over some leaves.
pub fn top_of(leaves: Vec<[u8; 32]>) -> (top: [u8; 32])
    requires
        leaves@.len() > 0,
    ensures
        top@ == tree_top(bytes_of(leaves@)),
{
    let ghost all = bytes_of(leaves@);
    let mut level = leaves;
    while level.len() > 1
        invariant
            level@.len() > 0,
            tree_top(bytes_of(level@)) == tree_top(all),
        decreases level@.len(),
    {
        let above = next_level(&level);
        proof {
            assert(bytes_of(above@).len() == above@.len());
        }
        level = above;
    }
    level[0]
}

/// The neighbours on the way from a leaf to the top.
pub fn steps_from(leaves: Vec<[u8; 32]>, pos: usize) -> (steps: Vec<([u8; 32], bool)>)
    requires
        power_of_two(leaves@.len()),
        pos < leaves@.len(),
    ensures
        steps_of(steps@) == way_up(bytes_of(leaves@), pos as int),
{
    let ghost all = way_up(bytes_of(leaves@), pos as int);
    let mut steps: Vec<([u8; 32], bool)> = Vec::new();
    let mut level = leaves;
    let mut at: usize = pos;
    assert(steps_of(steps@) + all =~= all);
    while level.len() > 1
        invariant
            power_of_two(level@.len()),
            at < level@.len(),
            steps_of(steps@) + way_up(bytes_of(level@), at as int) == all,
        decreases level@.len(),
    {
        let ghost done = steps_of(steps@);
        let left = at % 2 == 1;
        let beside: usize = if left {
            at - 1
        } else {
            at + 1
        };
        steps.push((level[beside], left));
        let above = next_level(&level);
        proof {
            let here = bytes_of(level@);
            assert(bytes_of(above@).len() == above@.len());
            let step = (here[neighbour(at as int).0], neighbour(at as int).1);
            assert(steps_of(steps@) =~= done.push(step));
            assert(steps_of(steps@) + way_up(bytes_of(above@), (at / 2) as int) =~= done + way_up(
                here,
                at as int,
            ));
        }
        level = above;
        at = at / 2;
    }
    assert(steps_of(steps@) + way_up(bytes_of(level@), at as int) =~= steps_of(steps@));
    steps
}

/// Follows a way up from a digest.
pub fn climb(start: [u8; 32], steps: &Vec<([u8; 32], bool)>) -> (top: [u8; 32])
    ensures
        top@ == climbed(start@, steps_of(steps@)),
{
    let ghost way = steps_of(steps@);
    let mut current = start;
    let mut i: usize = 0;
    assert(way.skip(0) =~= way);
    while i < steps.len()
        invariant
            i <= steps@.len(),
            way == steps_of(steps@),
            climbed(current@, way.skip(i as int)) == climbed(start@, way),
        decreases steps@.len() - i,
    {
        let ghost rest = way.skip(i as int);
        let left = steps[i].1;
        proof {
            assert(rest[0] == way[i as int]);
            assert(rest.skip(1) =~= way.skip(i + 1));
        }
        if left {
            current = digest(&steps[i].0, &current);
        } else {
            current = digest(&current, &steps[i].0);
        }
        i += 1;
    }
    current
}

} // verus!
