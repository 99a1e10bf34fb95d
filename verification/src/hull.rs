//! The hull: the currently-known boundary ring of an incrementally built
//! triangulation, ordered by angle around a fixed center.
//!
//! Points are referenced by index into a dense node array sized once at
//! construction; any subset of them may be inserted into or erased from the
//! ring over time. Each member carries the half-edge index the driver
//! associated with it. A fixed-size bucket table, indexed by a rounding of
//! the angle, makes locating a new point's ring position an expected
//! constant-time operation.

use vstd::arithmetic::div_mod::{lemma_div_is_ordered, lemma_fundamental_div_mod_converse_div};
use vstd::arithmetic::mul::lemma_mul_inequality;
use vstd::prelude::*;

verus! {

/// Number of slots in the bucket table (a power of two).
pub const BUCKET_COUNT: usize = 1024;

/// Sentinel point index marking "no point": an uninitialized link, a removed
/// node, or an unoccupied bucket.
pub const EMPTY: usize = usize::MAX;

/// Angles are fixed-point fractions of a full turn: a point's angle is a
/// value in `0 ..= ANGLE_ONE`, where `ANGLE_ONE` stands for 1.0.
pub const ANGLE_ONE: u64 = 0x1_0000_0000;

/// Half of [`ANGLE_ONE`], used to round when mapping an angle to a bucket.
pub const ANGLE_HALF: u64 = 0x8000_0000;

/// One per-point record: the fixed angle, the associated half-edge, and the
/// circular doubly linked membership links.
#[derive(Clone, Copy)]
struct Node {
    angle: u64,
    edge: usize,
    prev: usize,
    next: usize,
}

/// The bucket a given angle falls into: `round(angle * (BUCKET_COUNT - 1))`
/// of the angle taken as a fraction of [`ANGLE_ONE`]. Kept opaque: proofs go
/// through the monotonicity and range lemmas below rather than the formula.
#[verifier::opaque]
pub open spec fn spec_bucket_of_angle(a: u64) -> int {
    (a * (BUCKET_COUNT - 1) + ANGLE_HALF) / (ANGLE_ONE as int)
}

pub struct Hull {
    data: Vec<Node>,
    buckets: Vec<usize>,
    ring: Ghost<Seq<int>>,
}

impl Hull {
    /// The members currently in the hull, as point indices in ring order,
    /// starting from the member of least angle.
    pub closed spec fn ring(self) -> Seq<int> {
        self.ring@
    }

    /// How many points the node array was sized for at construction.
    pub closed spec fn len(self) -> nat {
        self.data@.len()
    }

    /// How many points are currently members of the hull.
    pub open spec fn member_count(self) -> nat {
        self.ring().len()
    }

    /// Whether point `i` is currently a member of the hull.
    pub open spec fn is_member(self, i: int) -> bool {
        self.ring().contains(i)
    }

    /// The angle assigned to point `i` at construction.
    pub closed spec fn angle_of(self, i: int) -> u64 {
        self.data@[i].angle
    }

    /// The half-edge index currently stored for point `i`.
    pub closed spec fn edge_of(self, i: int) -> usize {
        self.data@[i].edge
    }

    /// The successor link of point `i` (`EMPTY` when `i` is not a member).
    pub closed spec fn next_of(self, i: int) -> int {
        self.data@[i].next as int
    }

    /// The predecessor link of point `i` (`EMPTY` when `i` is not a member).
    pub closed spec fn prev_of(self, i: int) -> int {
        self.data@[i].prev as int
    }

    /// The head stored in bucket `b` (`EMPTY` when the bucket is unoccupied).
    pub closed spec fn bucket_head(self, b: int) -> int {
        self.buckets@[b] as int
    }

    /// The bucket point `i` falls into.
    pub open spec fn bucket_of(self, i: int) -> int {
        spec_bucket_of_angle(self.angle_of(i))
    }

    /// Whether angle `a` differs from the angle of every current member.
    pub open spec fn angle_fresh(self, a: u64) -> bool {
        forall|k: int| 0 <= k < self.ring().len() ==> self.angle_of(#[trigger] self.ring()[k]) != a
    }

    /// Bounds of the node and bucket arrays, and of every stored angle.
    spec fn nodes_ok(self) -> bool {
        &&& self.buckets@.len() == BUCKET_COUNT
        &&& self.data@.len() < usize::MAX
        &&& forall|i: int| 0 <= i < self.data@.len() ==> (#[trigger] self.data@[i].angle) <= ANGLE_ONE
    }

    /// The ring sequence lists members in strictly increasing angle order and
    /// matches the stored circular links exactly.
    spec fn ring_ok(self) -> bool {
        let r = self.ring@;
        let n = r.len() as int;
        &&& forall|k: int| 0 <= k < n ==> 0 <= #[trigger] r[k] < self.data@.len()
        &&& forall|k1: int, k2: int|
            #![trigger r[k1], r[k2]]
            0 <= k1 < k2 < n ==> self.data@[r[k1]].angle < self.data@[r[k2]].angle
        &&& forall|k: int| 0 <= k < n ==>
            (#[trigger] self.data@[r[k]].next) as int == r[if k + 1 == n { 0int } else { k + 1 }]
        &&& forall|k: int| 0 <= k < n ==>
            (#[trigger] self.data@[r[k]].prev) as int == r[if k == 0 { n - 1 } else { k - 1 }]
    }

    /// Points outside the ring have both links reset to the sentinel.
    spec fn absent_ok(self) -> bool {
        forall|i: int| 0 <= i < self.data@.len() && !self.ring@.contains(i)
            ==> (#[trigger] self.data@[i].next) == EMPTY && self.data@[i].prev == EMPTY
    }

    /// Whether ring position `k` starts a run of equal-bucket members.
    spec fn run_start(self, k: int) -> bool {
        k == 0 || self.bucket_of(self.ring@[k - 1]) != self.bucket_of(self.ring@[k])
    }

    /// Every bucket is either unoccupied, or holds the first member (in ring
    /// order) that falls into it.
    spec fn buckets_ok(self) -> bool {
        let r = self.ring@;
        &&& forall|k: int| 0 <= k < r.len() && self.run_start(k)
            ==> (#[trigger] self.buckets@[self.bucket_of(r[k])]) as int == r[k]
        &&& forall|b: int| 0 <= b < BUCKET_COUNT ==> ((#[trigger] self.buckets@[b]) == EMPTY
            || (r.contains(self.buckets@[b] as int) && self.bucket_of(self.buckets@[b] as int) == b))
    }

    /// The internal invariant every operation preserves: array bounds, the
    /// sorted circular linkage, sentinel links outside the ring, and bucket
    /// heads at the start of their chains.
    pub closed spec fn well_formed(self) -> bool {
        self.nodes_ok() && self.ring_ok() && self.absent_ok() && self.buckets_ok()
    }
}

/// The bucket table is indexed by a monotone rounding of the angle:
/// a smaller angle never falls into a later bucket.
proof fn lemma_bucket_monotone(a1: u64, a2: u64)
    requires
        a1 <= a2,
    ensures
        spec_bucket_of_angle(a1) <= spec_bucket_of_angle(a2),
{
    reveal(spec_bucket_of_angle);
    lemma_mul_inequality(a1 as int, a2 as int, (BUCKET_COUNT - 1) as int);
    lemma_div_is_ordered(
        a1 * (BUCKET_COUNT - 1) + ANGLE_HALF,
        a2 * (BUCKET_COUNT - 1) + ANGLE_HALF,
        ANGLE_ONE as int,
    );
}

/// Every angle in the fixed range maps to a bucket index in range.
proof fn lemma_bucket_range(a: u64)
    requires
        a <= ANGLE_ONE,
    ensures
        0 <= spec_bucket_of_angle(a) < BUCKET_COUNT,
{
    let one = ANGLE_ONE as int;
    let half = ANGLE_HALF as int;
    let top = (BUCKET_COUNT - 1) as int;
    reveal(spec_bucket_of_angle);
    lemma_fundamental_div_mod_converse_div(0 * one + half, one, 0, half);
    assert(spec_bucket_of_angle(0) == 0);
    lemma_fundamental_div_mod_converse_div(top * one + half, one, top, half);
    vstd::arithmetic::mul::lemma_mul_is_commutative(ANGLE_ONE as int, top);
    assert(spec_bucket_of_angle(ANGLE_ONE) == top);
    lemma_bucket_monotone(0, a);
    lemma_bucket_monotone(a, ANGLE_ONE);
}

/// A strictly later bucket forces a strictly larger angle: the
/// contrapositive of bucket monotonicity, used to place a point relative to
/// a bucket boundary.
proof fn lemma_bucket_gap(a1: u64, a2: u64)
    requires
        spec_bucket_of_angle(a1) < spec_bucket_of_angle(a2),
    ensures
        a1 < a2,
{
    if a1 >= a2 {
        lemma_bucket_monotone(a2, a1);
    }
}

impl Hull {
    /// The position of member `i` in ring order.
    pub open spec fn position_of(self, i: int) -> int {
        self.ring().index_of(i)
    }

    /// Picks out the ring position of a member.
    proof fn ring_position(self, i: int) -> (k: int)
        requires
            self.well_formed(),
            self.ring@.contains(i),
        ensures
            0 <= k < self.ring@.len(),
            self.ring@[k] == i,
            self.position_of(i) == k,
    {
        let k = choose|k: int| 0 <= k < self.ring@.len() && self.ring@[k] == i;
        self.lemma_positions_distinct(k, self.ring@.index_of(i));
        k
    }

    /// Distinct ring positions hold distinct points (their angles differ).
    proof fn lemma_positions_distinct(self, k1: int, k2: int)
        requires
            self.well_formed(),
            0 <= k1 < self.ring@.len(),
            0 <= k2 < self.ring@.len(),
            self.ring@[k1] == self.ring@[k2],
        ensures
            k1 == k2,
    {
    }

    /// Contrapositive form: distinct ring positions, distinct points.
    proof fn lemma_positions_distinct_all(self, k1: int, k2: int)
        requires
            self.well_formed(),
            0 <= k1 < self.ring@.len(),
            0 <= k2 < self.ring@.len(),
            k1 != k2,
        ensures
            self.ring@[k1] != self.ring@[k2],
    {
        if self.ring@[k1] == self.ring@[k2] {
            self.lemma_positions_distinct(k1, k2);
        }
    }

    /// Maps a point's angle to its bucket index.
    fn bucket(&self, p: usize) -> (b: usize)
        requires
            self.well_formed(),
            p < self.len(),
        ensures
            b as int == self.bucket_of(p as int),
            b < BUCKET_COUNT,
    {
        let a = self.data[p].angle;
        proof {
            reveal(spec_bucket_of_angle);
            lemma_bucket_range(a);
            lemma_mul_inequality(a as int, ANGLE_ONE as int, (BUCKET_COUNT - 1) as int);
        }
        ((a * ((BUCKET_COUNT - 1) as u64) + ANGLE_HALF) / ANGLE_ONE) as usize
    }

    /// Builds the hull over a candidate point set, given each point's angle
    /// around the triangulation center as a fixed-point fraction of a turn.
    /// No point is a member yet.
    pub fn new(angles: Vec<u64>) -> (h: Hull)
        requires
            angles.len() < usize::MAX,
            forall|i: int| 0 <= i < angles.len() ==> #[trigger] angles[i] <= ANGLE_ONE,
        ensures
            h.well_formed(),
            h.len() == angles.len(),
            h.member_count() == 0,
            forall|i: int| 0 <= i < angles.len() ==> #[trigger] h.angle_of(i) == angles[i],
            forall|i: int| 0 <= i < angles.len() ==> #[trigger] h.edge_of(i) == 0,
    {
        let n = angles.len();
        let mut data: Vec<Node> = Vec::new();
        let mut i: usize = 0;
        while i < n
            invariant
                i <= n,
                n == angles.len(),
                data@.len() == i,
                forall|j: int| 0 <= j < i ==> #[trigger] data@[j].angle == angles[j],
                forall|j: int| 0 <= j < i
                    ==> (#[trigger] data@[j].next) == EMPTY && data@[j].prev == EMPTY,
                forall|j: int| 0 <= j < i ==> (#[trigger] data@[j].edge) == 0,
            decreases n - i,
        {
            data.push(Node { angle: angles[i], edge: 0, prev: EMPTY, next: EMPTY });
            i = i + 1;
        }
        let mut buckets: Vec<usize> = Vec::new();
        let mut b: usize = 0;
        while b < BUCKET_COUNT
            invariant
                b <= BUCKET_COUNT,
                buckets@.len() == b,
                forall|j: int| 0 <= j < b ==> #[trigger] buckets@[j] == EMPTY,
            decreases BUCKET_COUNT - b,
        {
            buckets.push(EMPTY);
            b = b + 1;
        }
        Hull { data, buckets, ring: Ghost(Seq::empty()) }
    }

    /// Inserts the first member: `p` becomes a one-node self-looped ring with
    /// associated half-edge `e`, and the head of its bucket.
    pub fn insert_first(&mut self, p: usize, e: usize)
        requires
            old(self).well_formed(),
            old(self).member_count() == 0,
            p < old(self).len(),
        ensures
            final(self).well_formed(),
            final(self).ring() == seq![p as int],
            final(self).is_member(p as int),
            final(self).member_count() == 1,
            final(self).len() == old(self).len(),
            forall|i: int| 0 <= i < old(self).len()
                ==> #[trigger] final(self).angle_of(i) == old(self).angle_of(i),
            final(self).edge_of(p as int) == e,
            forall|i: int| 0 <= i < old(self).len() && i != p
                ==> #[trigger] final(self).edge_of(i) == old(self).edge_of(i),
    {
        let b = self.bucket(p);
        let mut node = self.data[p];
        node.next = p;
        node.prev = p;
        node.edge = e;
        self.data[p] = node;
        self.buckets[b] = p;
        proof {
            self.ring@ = seq![p as int];
            lemma_insert_first_wf(*old(self), *self, p, e, b);
        }
    }

    /// Replaces the half-edge stored for the member `p`; membership and
    /// ordering are untouched.
    #[verifier::rlimit(100)]
    #[verifier::spinoff_prover]
    pub fn update(&mut self, p: usize, e: usize)
        requires
            old(self).well_formed(),
            old(self).is_member(p as int),
        ensures
            final(self).well_formed(),
            final(self).ring() == old(self).ring(),
            final(self).len() == old(self).len(),
            forall|i: int| 0 <= i < old(self).len()
                ==> #[trigger] final(self).angle_of(i) == old(self).angle_of(i),
            final(self).edge_of(p as int) == e,
            forall|i: int| 0 <= i < old(self).len() && i != p
                ==> #[trigger] final(self).edge_of(i) == old(self).edge_of(i),
            forall|i: int| 0 <= i < old(self).len()
                ==> #[trigger] final(self).next_of(i) == old(self).next_of(i)
                    && final(self).prev_of(i) == old(self).prev_of(i),
            forall|b: int| 0 <= b < BUCKET_COUNT
                ==> #[trigger] final(self).bucket_head(b) == old(self).bucket_head(b),
    {
        proof {
            let k = old(self).ring_position(p as int);
        }
        let mut node = self.data[p];
        node.edge = e;
        self.data[p] = node;
        proof {
            lemma_wf_from_parts(*old(self), *self);
        }
    }

    /// The half-edge stored for the member `p`.
    pub fn edge(&self, p: usize) -> (r: usize)
        requires
            self.well_formed(),
            self.is_member(p as int),
        ensures
            r == self.edge_of(p as int),
    {
        proof {
            let k = self.ring_position(p as int);
        }
        self.data[p].edge
    }

    /// The half-edge stored for the member preceding `p` on the ring.
    pub fn prev_edge(&self, p: usize) -> (r: usize)
        requires
            self.well_formed(),
            self.is_member(p as int),
        ensures
            r == self.edge_of(self.prev_of(p as int)),
    {
        proof {
            let k = self.ring_position(p as int);
            let n = self.ring@.len() as int;
            let kp = if k == 0 { n - 1 } else { k - 1 };
            assert(self.prev_of(p as int) == self.ring@[kp]);
        }
        let q = self.data[p].prev;
        self.data[q].edge
    }
}

/// How many entries of `angles` are strictly below `a`.
pub open spec fn count_below(angles: Seq<u64>, a: u64) -> int
    decreases angles.len(),
{
    if angles.len() == 0 {
        0
    } else {
        (if angles[0] < a { 1int } else { 0int }) + count_below(angles.drop_first(), a)
    }
}

/// In a strictly sorted sequence, the entries below `a` form the prefix of
/// length `count_below`.
pub proof fn lemma_count_below_sorted(s: Seq<u64>, a: u64)
    requires
        forall|i: int, j: int| #![trigger s[i], s[j]] 0 <= i < j < s.len() ==> s[i] < s[j],
    ensures
        0 <= count_below(s, a) <= s.len(),
        forall|i: int| 0 <= i < count_below(s, a) ==> s[i] < a,
        forall|i: int| count_below(s, a) <= i < s.len() ==> s[i] >= a,
    decreases s.len(),
{
    if s.len() > 0 {
        let t = s.drop_first();
        assert forall|i: int, j: int| #![trigger t[i], t[j]] 0 <= i < j < t.len()
            implies t[i] < t[j] by {
            assert(t[i] == s[i + 1] && t[j] == s[j + 1]);
        }
        lemma_count_below_sorted(t, a);
        let c = count_below(s, a);
        if s[0] < a {
            assert forall|i: int| 0 <= i < c implies s[i] < a by {
                if i > 0 {
                    assert(t[i - 1] < a);
                }
            }
            assert forall|i: int| c <= i < s.len() implies s[i] >= a by {
                assert(t[i - 1] >= a);
            }
        } else {
            if count_below(t, a) > 0 {
                assert(t[0] < a);
                assert(t[0] == s[1]);
            }
            assert(c == 0);
            assert forall|i: int| c <= i < s.len() implies s[i] >= a by {
                if i > 0 {
                    assert(s[0] < s[i]);
                }
            }
        }
    }
}

impl Hull {
    /// The members' angles in ring order.
    pub open spec fn member_angles(self) -> Seq<u64> {
        self.ring().map(|k: int, i: int| self.angle_of(i))
    }

    /// How many members have an angle strictly below `a`: the ring position
    /// at which a point of angle `a` would be spliced in.
    pub open spec fn angle_rank(self, a: u64) -> int {
        count_below(self.member_angles(), a)
    }

    /// The `(prev, next)` member pair between which a point of angle `a`
    /// sits: `next` is the first member whose angle is not below `a`
    /// (wrapping to the least member when every angle is below `a`), and
    /// `prev` is the member preceding it on the ring.
    pub open spec fn get_result(self, a: u64) -> (int, int) {
        let n = self.ring().len() as int;
        let k = self.angle_rank(a);
        (
            self.ring()[if k == 0 { n - 1 } else { k - 1 }],
            self.ring()[if k == n { 0int } else { k }],
        )
    }

    /// The members' angles are strictly sorted in ring order.
    proof fn lemma_member_angles_sorted(self)
        requires
            self.well_formed(),
        ensures
            self.member_angles().len() == self.ring@.len(),
            forall|k: int| 0 <= k < self.ring@.len()
                ==> self.member_angles()[k] == self.angle_of(#[trigger] self.ring@[k]),
            forall|i: int, j: int|
                #![trigger self.member_angles()[i], self.member_angles()[j]]
                0 <= i < j < self.member_angles().len()
                    ==> self.member_angles()[i] < self.member_angles()[j],
    {
    }

    /// Buckets never decrease along the ring.
    proof fn lemma_ring_bucket_monotone(self, k1: int, k2: int)
        requires
            self.well_formed(),
            0 <= k1 <= k2 < self.ring@.len(),
        ensures
            self.bucket_of(self.ring@[k1]) <= self.bucket_of(self.ring@[k2]),
    {
        if k1 < k2 {
            lemma_bucket_monotone(self.angle_of(self.ring@[k1]), self.angle_of(self.ring@[k2]));
        }
    }

    /// Members of one bucket sit contiguously on the ring.
    proof fn lemma_run_contiguous(self, i: int, j: int, m: int)
        requires
            self.well_formed(),
            0 <= i <= m <= j < self.ring@.len(),
            self.bucket_of(self.ring@[i]) == self.bucket_of(self.ring@[j]),
        ensures
            self.bucket_of(self.ring@[m]) == self.bucket_of(self.ring@[i]),
    {
        self.lemma_ring_bucket_monotone(i, m);
        self.lemma_ring_bucket_monotone(m, j);
    }

    /// Walking back from any member, its bucket's chain starts at the bucket
    /// head, and every position in between shares the bucket.
    #[verifier::rlimit(100)]
    #[verifier::spinoff_prover]
    proof fn bucket_run_start(self, k: int) -> (lo: int)
        requires
            self.well_formed(),
            0 <= k < self.ring@.len(),
        ensures
            0 <= lo <= k,
            self.run_start(lo),
            self.buckets@[self.bucket_of(self.ring@[k])] as int == self.ring@[lo],
            forall|j: int| lo <= j <= k
                ==> self.bucket_of(#[trigger] self.ring@[j]) == self.bucket_of(self.ring@[k]),
        decreases k,
    {
        if k == 0 || self.bucket_of(self.ring@[k - 1]) != self.bucket_of(self.ring@[k]) {
            assert(self.run_start(k));
            k
        } else {
            let lo = self.bucket_run_start(k - 1);
            lo
        }
    }

    /// The ring position of a bucket's head, for an occupied bucket: it is a
    /// run start, and the only one in its bucket.
    proof fn bucket_head_position(self, b: int) -> (lo: int)
        requires
            self.well_formed(),
            0 <= b < BUCKET_COUNT,
            self.buckets@[b] != EMPTY,
        ensures
            0 <= lo < self.ring@.len(),
            self.ring@[lo] == self.buckets@[b] as int,
            self.bucket_of(self.ring@[lo]) == b,
            self.run_start(lo),
            forall|j: int| 0 <= j < lo ==> self.bucket_of(#[trigger] self.ring@[j]) < b,
    {
        let h = self.buckets@[b] as int;
        assert(self.ring@.contains(h));
        let lo = self.ring_position(h);
        let lo2 = self.bucket_run_start(lo);
        assert(self.ring@[lo2] == self.buckets@[b] as int);
        self.lemma_positions_distinct(lo, lo2);
        assert forall|j: int| 0 <= j < lo
            implies self.bucket_of(#[trigger] self.ring@[j]) < b by {
            self.lemma_ring_bucket_monotone(j, lo);
            if self.bucket_of(self.ring@[j]) == b {
                // the run would extend past a run start
                self.lemma_ring_bucket_monotone(j, lo - 1);
                self.lemma_ring_bucket_monotone(lo - 1, lo);
            }
        }
        lo
    }

    /// Exports the characterization of `angle_rank`: members below the rank
    /// have angles below `a`, members at or past it do not.
    pub proof fn lemma_angle_rank_properties(self, a: u64)
        requires
            self.well_formed(),
        ensures
            0 <= self.angle_rank(a) <= self.member_count(),
            forall|k: int| 0 <= k < self.angle_rank(a)
                ==> self.angle_of(#[trigger] self.ring()[k]) < a,
            forall|k: int| self.angle_rank(a) <= k < self.member_count()
                ==> self.angle_of(#[trigger] self.ring()[k]) >= a,
    {
        self.lemma_member_angles_sorted();
        lemma_count_below_sorted(self.member_angles(), a);
    }
}

/// Forward cyclic distance from bucket `b` to bucket `u`.
spec fn cyc_dist(b: int, u: int) -> int {
    if u >= b {
        u - b
    } else {
        u + BUCKET_COUNT - b
    }
}

impl Hull {
    /// Members of an unoccupied bucket do not exist: every member's angle is
    /// below `a` exactly when its bucket is below `a`'s (unoccupied) bucket.
    proof fn lemma_empty_bucket_split(self, a: u64)
        requires
            self.well_formed(),
            a <= ANGLE_ONE,
            0 <= spec_bucket_of_angle(a) < BUCKET_COUNT,
            self.buckets@[spec_bucket_of_angle(a)] == EMPTY,
        ensures
            forall|k: int| 0 <= k < self.ring@.len()
                ==> self.bucket_of(#[trigger] self.ring@[k]) != spec_bucket_of_angle(a),
            forall|k: int| 0 <= k < self.ring@.len()
                ==> (self.angle_of(#[trigger] self.ring@[k]) < a
                    <==> self.bucket_of(self.ring@[k]) < spec_bucket_of_angle(a)),
    {
        let b = spec_bucket_of_angle(a);
        assert forall|k: int| 0 <= k < self.ring@.len()
            implies self.bucket_of(#[trigger] self.ring@[k]) != b by {
            if self.bucket_of(self.ring@[k]) == b {
                let lo = self.bucket_run_start(k);
            }
        }
        assert forall|k: int| 0 <= k < self.ring@.len()
            implies (self.angle_of(#[trigger] self.ring@[k]) < a
                <==> self.bucket_of(self.ring@[k]) < b) by {
            let ak = self.angle_of(self.ring@[k]);
            if self.bucket_of(self.ring@[k]) < b {
                lemma_bucket_gap(ak, a);
            }
            if ak < a {
                lemma_bucket_monotone(ak, a);
            }
        }
    }

    /// Where the scan for the first occupied bucket at or after an
    /// unoccupied bucket stops, the head found is the member at the rank of
    /// the sought angle (wrapping to the least member when every angle is
    /// below it).
    #[verifier::rlimit(100)]
    #[verifier::spinoff_prover]
    proof fn lemma_scan_exit(self, a: u64, t: int)
        requires
            self.well_formed(),
            self.ring@.len() > 0,
            a <= ANGLE_ONE,
            0 <= spec_bucket_of_angle(a) < BUCKET_COUNT,
            self.buckets@[spec_bucket_of_angle(a)] == EMPTY,
            0 <= t < BUCKET_COUNT,
            self.buckets@[t] != EMPTY,
            forall|u: int| 0 <= u < BUCKET_COUNT
                && cyc_dist(spec_bucket_of_angle(a), u) < cyc_dist(spec_bucket_of_angle(a), t)
                ==> self.buckets@[u] == EMPTY,
        ensures
            ({
                let n = self.ring@.len() as int;
                let k = self.angle_rank(a);
                self.buckets@[t] as int == self.ring@[if k == n { 0int } else { k }]
            }),
    {
        let rg = self.ring@;
        let n = rg.len() as int;
        let b = spec_bucket_of_angle(a);
        let rank = self.angle_rank(a);
        self.lemma_angle_rank_properties(a);
        self.lemma_empty_bucket_split(a);
        let kt = self.bucket_head_position(t);
        if rank < n {
            let bt = self.bucket_of(rg[rank]);
            assert(self.angle_of(rg[rank]) >= a);
            lemma_bucket_monotone(a, self.angle_of(rg[rank]));
            assert(bt > b);
            lemma_bucket_range(self.angle_of(rg[rank]));
            let lot = self.bucket_run_start(rank);
            assert(self.buckets@[bt] as int == rg[lot]);
            assert(self.buckets@[bt] != EMPTY);
            // an occupied bucket is never passed over by the scan
            if cyc_dist(b, bt) < cyc_dist(b, t) {
                assert(self.buckets@[bt] == EMPTY);
                assert(false);
            }
            if t < b {
                assert(cyc_dist(b, bt) < cyc_dist(b, t));
                assert(false);
            }
            assert(b < t && t <= bt);
            // the head's position is at least the rank...
            assert(self.bucket_of(rg[kt]) == t && t > b);
            assert(self.angle_of(rg[kt]) >= a);
            assert(kt >= rank);
            // ...and no further: positions before it sit in buckets below t,
            // so a rank below kt would put the rank member below t.
            if kt > rank {
                assert(self.bucket_of(rg[rank]) < t);
                assert(false);
            }
            assert(self.buckets@[t] as int == rg[rank]);
        } else {
            // every member's angle is below a: the scan wraps to the least
            // occupied bucket, whose head is the least member.
            let b0 = self.bucket_of(rg[0]);
            let lo0 = self.bucket_run_start(0);
            assert(self.buckets@[b0] as int == rg[0]);
            lemma_bucket_range(self.angle_of(rg[0]));
            assert(self.ring@.contains(self.buckets@[t] as int));
            let kq = self.ring_position(self.buckets@[t] as int);
            assert(self.bucket_of(rg[kq]) == t);
            assert(self.angle_of(rg[kq]) < a);
            assert(t < b);
            self.lemma_ring_bucket_monotone(0, kq);
            assert(b0 <= t);
            if b0 < t {
                assert(cyc_dist(b, b0) < cyc_dist(b, t));
                assert(self.buckets@[b0] == EMPTY);
                assert(false);
            }
            assert(b0 == t);
            if kt > 0 {
                assert(self.bucket_of(rg[0]) < t);
                assert(false);
            }
            assert(self.buckets@[t] as int == rg[0]);
        }
    }

    /// Where the in-bucket walk stops, it stands on the member at the rank
    /// of the sought angle (wrapping to the least member when every angle is
    /// below it).
    #[verifier::rlimit(100)]
    #[verifier::spinoff_prover]
    proof fn lemma_walk_exit(self, a: u64, kh: int, j: int, pos: int)
        requires
            self.well_formed(),
            self.ring@.len() > 0,
            0 <= kh < self.ring@.len(),
            self.bucket_of(self.ring@[kh]) == spec_bucket_of_angle(a),
            forall|i: int| 0 <= i < kh
                ==> self.bucket_of(#[trigger] self.ring@[i]) < spec_bucket_of_angle(a),
            kh <= j <= self.ring@.len(),
            j == self.ring@.len() ==> pos == self.ring@[0],
            j < self.ring@.len() ==> pos == self.ring@[j]
                && (self.angle_of(self.ring@[j]) >= a
                    || self.bucket_of(self.ring@[j]) != spec_bucket_of_angle(a)),
            forall|i: int| kh <= i < j
                ==> self.angle_of(#[trigger] self.ring@[i]) < a
                    && self.bucket_of(self.ring@[i]) == spec_bucket_of_angle(a),
        ensures
            ({
                let n = self.ring@.len() as int;
                let k = self.angle_rank(a);
                pos == self.ring@[if k == n { 0int } else { k }]
            }),
    {
        let rg = self.ring@;
        let n = rg.len() as int;
        let b = spec_bucket_of_angle(a);
        let rank = self.angle_rank(a);
        self.lemma_angle_rank_properties(a);
        // every position below j has an angle below a, so the rank is at
        // least j; at j itself the walk stopped on a member whose angle is
        // not below a, so the rank is exactly j.
        assert forall|i: int| 0 <= i < j
            implies self.angle_of(#[trigger] rg[i]) < a by {
            if i < kh {
                lemma_bucket_gap(self.angle_of(rg[i]), a);
            }
        }
        if rank < j {
            assert(self.angle_of(rg[rank]) >= a);
            assert(self.angle_of(rg[rank]) < a);
        }
        assert(rank >= j);
        if j < n {
            if self.bucket_of(rg[j]) != b {
                self.lemma_ring_bucket_monotone(kh, j);
                lemma_bucket_gap(a, self.angle_of(rg[j]));
            }
            assert(self.angle_of(rg[j]) >= a);
            assert(rank <= j);
        } else {
            assert(rank == n);
        }
    }

    /// For a point `p` (member or not), returns the `(prev, next)` member
    /// pair for the hull edge that `p`, projected toward the triangulation
    /// center, would cross: the pair between which `p`'s angle would sit.
    #[verifier::rlimit(100)]
    #[verifier::spinoff_prover]
    pub fn get(&self, p: usize) -> (r: (usize, usize))
        requires
            self.well_formed(),
            p < self.len(),
            self.member_count() > 0,
        ensures
            r.0 as int == self.get_result(self.angle_of(p as int)).0,
            r.1 as int == self.get_result(self.angle_of(p as int)).1,
            self.is_member(r.0 as int),
            self.is_member(r.1 as int),
    {
        let ghost rg = self.ring@;
        let ghost n = rg.len() as int;
        let a = self.data[p].angle;
        let ghost rank = self.angle_rank(a);
        proof {
            self.lemma_angle_rank_properties(a);
        }
        let b = self.bucket(p);

        let mut pos = self.buckets[b];
        if pos == EMPTY {
            proof {
                self.lemma_empty_bucket_split(a);
            }
            // Scan forward (cyclically) for the first occupied bucket; its
            // head is the next member above p's angle.
            let mut t = b;
            let ghost mut off: int = 0;
            let ghost b0 = self.bucket_of(rg[0]);
            proof {
                let lo0 = self.bucket_run_start(0);
                assert(self.buckets@[b0] as int == rg[0]);
                lemma_bucket_range(self.angle_of(rg[0]));
            }
            while self.buckets[t] == EMPTY
                invariant
                    self.well_formed(),
                    rg == self.ring@,
                    n == rg.len() as int,
                    n > 0,
                    b0 == self.bucket_of(rg[0]),
                    0 <= b0 < BUCKET_COUNT,
                    self.buckets@[b0] as int == rg[0],
                    (b as int) < BUCKET_COUNT,
                    (t as int) < BUCKET_COUNT,
                    0 <= off < BUCKET_COUNT,
                    cyc_dist(b as int, t as int) == off,
                    forall|u: int| 0 <= u < BUCKET_COUNT && cyc_dist(b as int, u) < off
                        ==> self.buckets@[u] == EMPTY,
                decreases BUCKET_COUNT - off,
            {
                proof {
                    assert(self.buckets@[t as int] == EMPTY);
                    assert(t as int != b0);
                    assert(off < cyc_dist(b as int, b0));
                    off = off + 1;
                }
                t = if t + 1 == BUCKET_COUNT { 0 } else { t + 1 };
            }
            pos = self.buckets[t];
            proof {
                self.lemma_scan_exit(a, t as int);
                assert(pos as int == rg[if rank == n { 0int } else { rank }]);
            }
        } else {
            // The bucket is occupied: walk its chain from the head while the
            // walked member's angle is below p's and it stays in the bucket.
            let start = pos;
            let ghost mut kh: int = 0;
            proof {
                kh = self.bucket_head_position(b as int);
                assert(rg[kh] == pos as int);
                // positions before the head sit in earlier buckets, hence
                // below a
                assert forall|i: int| 0 <= i < kh
                    implies self.angle_of(#[trigger] rg[i]) < a by {
                    lemma_bucket_gap(self.angle_of(rg[i]), a);
                }
            }
            let ghost mut j: int = kh;
            while self.data[pos].angle < a && self.bucket(pos) == b
                invariant_except_break
                    self.well_formed(),
                    rg == self.ring@,
                    n == rg.len() as int,
                    n > 0,
                    a == self.angle_of(p as int),
                    a <= ANGLE_ONE,
                    b as int == spec_bucket_of_angle(a),
                    (b as int) < BUCKET_COUNT,
                    0 <= kh < n,
                    rg[kh] == start as int,
                    self.bucket_of(rg[kh]) == b as int,
                    forall|i: int| 0 <= i < kh ==> self.bucket_of(#[trigger] rg[i]) < b as int,
                    kh <= j <= n,
                    j == n ==> kh != 0 && pos as int == rg[0],
                    j < n ==> pos as int == rg[j],
                    forall|i: int| kh <= i < j
                        ==> self.angle_of(#[trigger] rg[i]) < a
                            && self.bucket_of(rg[i]) == b as int,
                ensures
                    kh <= j <= n,
                    j == n ==> pos as int == rg[0],
                    j < n ==> pos as int == rg[j]
                        && (self.angle_of(rg[j]) >= a || self.bucket_of(rg[j]) != b as int),
                    forall|i: int| kh <= i < j
                        ==> self.angle_of(#[trigger] rg[i]) < a
                            && self.bucket_of(rg[i]) == b as int,
                decreases n - j,
            {
                proof {
                    if j == n {
                        // the walk would have left the bucket at the wrap
                        assert(self.bucket_of(rg[0]) < b as int);
                        assert(false);
                    }
                    let kj = self.ring_position(pos as int);
                    self.lemma_positions_distinct(kj, j);
                }
                pos = self.data[pos].next;
                proof {
                    j = j + 1;
                }
                if pos == start {
                    proof {
                        if j < n {
                            self.lemma_positions_distinct(j, kh);
                        }
                        assert(j == n && kh == 0);
                    }
                    break;
                }
                proof {
                    if j == n {
                        assert(pos as int == rg[0]);
                        if kh == 0 {
                            assert(pos == start);
                        }
                    }
                }
            }
            proof {
                self.lemma_walk_exit(a, kh, j, pos as int);
                assert(pos as int == rg[if rank == n { 0int } else { rank }]);
            }
        }
        proof {
            assert(pos as int == rg[if rank == n { 0int } else { rank }]);
            let kpos = if rank == n { 0int } else { rank };
            assert(self.prev_of(rg[kpos]) == rg[if kpos == 0 { n - 1 } else { kpos - 1 }]);
            assert(rg[if kpos == 0 { n - 1 } else { kpos - 1 }]
                == rg[if rank == 0 { n - 1 } else { rank - 1 }]);
            assert(self.ring@.contains(rg[kpos]));
            assert(self.ring@.contains(rg[if rank == 0 { n - 1 } else { rank - 1 }]));
        }
        let prev = self.data[pos].prev;
        (prev, pos)
    }

    /// The half-edge beginning at the member just below `p`'s angle: the
    /// hull edge that `p`, projected toward the center, would cross.
    pub fn get_edge(&self, p: usize) -> (r: usize)
        requires
            self.well_formed(),
            p < self.len(),
            self.member_count() > 0,
        ensures
            r == self.edge_of(self.get_result(self.angle_of(p as int)).0),
    {
        let pair = self.get(p);
        proof {
            let k = self.ring_position(pair.0 as int);
        }
        self.data[pair.0].edge
    }

    /// Splices the non-member `p`, with half-edge `e`, into the ring at its
    /// angle's position, and promotes it to bucket head when it becomes the
    /// first member of its bucket.
    ///
    /// The ring must already have a member (`insert_first` seeds it), and
    /// `p`'s angle must differ from every current member's: on a tie the
    /// head-promotion rule would leave a bucket head after the run's start,
    /// which `get` relies on.
    #[verifier::rlimit(100)]
    #[verifier::spinoff_prover]
    pub fn insert(&mut self, p: usize, e: usize)
        requires
            old(self).well_formed(),
            p < old(self).len(),
            old(self).member_count() > 0,
            !old(self).is_member(p as int),
            old(self).angle_fresh(old(self).angle_of(p as int)),
        ensures
            final(self).well_formed(),
            final(self).ring() == old(self).ring().insert(
                old(self).angle_rank(old(self).angle_of(p as int)),
                p as int,
            ),
            final(self).is_member(p as int),
            final(self).member_count() == old(self).member_count() + 1,
            final(self).len() == old(self).len(),
            forall|i: int| 0 <= i < old(self).len()
                ==> #[trigger] final(self).angle_of(i) == old(self).angle_of(i),
            final(self).edge_of(p as int) == e,
            forall|i: int| 0 <= i < old(self).len() && i != p
                ==> #[trigger] final(self).edge_of(i) == old(self).edge_of(i),
    {
        let ghost rg = self.ring@;
        let ghost n = rg.len() as int;
        let ghost a_g = self.angle_of(p as int);
        let ghost k = self.angle_rank(a_g);
        proof {
            self.lemma_angle_rank_properties(a_g);
        }
        let b = self.bucket(p);
        let pair = self.get(p);
        let prev = pair.0;
        let next = pair.1;
        proof {
            let kprev = self.ring_position(prev as int);
            let knext = self.ring_position(next as int);
        }

        // If the target bucket is empty, or p sits immediately before the
        // bucket's current head with a smaller angle, p becomes the head.
        if self.buckets[b] == EMPTY
            || (self.buckets[b] == next && self.data[p].angle < self.data[next].angle) {
            self.buckets[b] = p;
        }

        // Write the new node, leaving its angle fixed, and stitch it in.
        let mut node = self.data[p];
        node.edge = e;
        node.next = next;
        node.prev = prev;
        self.data[p] = node;
        let mut node_next = self.data[next];
        node_next.prev = p;
        self.data[next] = node_next;
        let mut node_prev = self.data[prev];
        node_prev.next = p;
        self.data[prev] = node_prev;
        proof {
            self.ring@ = rg.insert(k, p as int);
            assert(insert_data_shape(*old(self), *self, p as int, e)) by {
                assert(old(self).ring@[if k == n { 0int } else { k }] == next as int);
                assert(old(self).ring@[if k == 0 { n - 1 } else { k - 1 }] == prev as int);
                assert(p != next && p != prev);
            }
            assert(insert_buckets_shape(*old(self), *self, p as int)) by {
                assert(old(self).ring@[if k == n { 0int } else { k }] == next as int);
            }
            lemma_insert_wf(*old(self), *self, p as int, e);
        }
    }

    /// Unlinks the member `p` from the ring and resets its links to the
    /// sentinel; if `p` headed its bucket, the head moves to `p`'s successor
    /// when that successor still falls into the same bucket, and the bucket
    /// is marked unoccupied otherwise.
    #[verifier::rlimit(100)]
    #[verifier::spinoff_prover]
    pub fn erase(&mut self, p: usize)
        requires
            old(self).well_formed(),
            old(self).is_member(p as int),
        ensures
            final(self).well_formed(),
            final(self).ring() == old(self).ring().remove(old(self).position_of(p as int)),
            final(self).member_count() == old(self).member_count() - 1,
            final(self).len() == old(self).len(),
            forall|i: int| 0 <= i < old(self).len()
                ==> #[trigger] final(self).angle_of(i) == old(self).angle_of(i),
            forall|i: int| 0 <= i < old(self).len()
                ==> #[trigger] final(self).edge_of(i) == old(self).edge_of(i),
            !final(self).is_member(p as int),
    {
        let ghost rg = self.ring@;
        let ghost n = rg.len() as int;
        let ghost k = self.position_of(p as int);
        proof {
            let k0 = self.ring_position(p as int);
        }
        let b = self.bucket(p);
        let next = self.data[p].next;
        let prev = self.data[p].prev;
        proof {
            assert(next as int == rg[if k + 1 == n { 0int } else { k + 1 }]);
            assert(prev as int == rg[if k == 0 { n - 1 } else { k - 1 }]);
        }
        let next_bucket = self.bucket(next);

        // Cut p out of the linked list.
        let mut node_next = self.data[next];
        node_next.prev = prev;
        self.data[next] = node_next;
        let mut node_prev = self.data[prev];
        node_prev.next = next;
        self.data[prev] = node_prev;
        let mut node = self.data[p];
        node.next = EMPTY;
        node.prev = EMPTY;
        self.data[p] = node;

        // If p headed its bucket, promote its successor when that successor
        // still maps here; a vacated bucket (including the one of a sole
        // last member) is marked unoccupied.
        if self.buckets[b] == p {
            if next != p && next_bucket == b {
                self.buckets[b] = next;
            } else {
                self.buckets[b] = EMPTY;
            }
        }
        proof {
            self.ring@ = rg.remove(k);
            assert(erase_data_shape(*old(self), *self, p as int)) by {
                if n == 1 {
                    assert(next == p && prev == p);
                }
            }
            assert(erase_buckets_shape(*old(self), *self, p as int));
            lemma_erase_wf(*old(self), *self, p as int);
            if self.ring@.contains(p as int) {
                let j = choose|j: int| 0 <= j < self.ring@.len() && self.ring@[j] == p as int;
                old(self).lemma_positions_distinct_all(if j < k { j } else { j + 1 }, k);
                assert(false);
            }
        }
    }

    /// All stored half-edges, walking the ring once in order from the head
    /// of the first occupied bucket (the member of least angle).
    #[verifier::rlimit(100)]
    #[verifier::spinoff_prover]
    pub fn values(&self) -> (r: Vec<usize>)
        requires
            self.well_formed(),
            self.member_count() > 0,
        ensures
            r@.len() == self.member_count(),
            forall|i: int| 0 <= i < self.member_count()
                ==> r@[i] == self.edge_of(#[trigger] self.ring()[i]),
    {
        let ghost rg = self.ring@;
        let ghost n = rg.len() as int;
        let ghost b0 = self.bucket_of(rg[0]);
        proof {
            let lo0 = self.bucket_run_start(0);
            assert(self.buckets@[b0] as int == rg[0]);
            lemma_bucket_range(self.angle_of(rg[0]));
        }
        // Find the first occupied bucket: the least member's bucket.
        let mut t: usize = 0;
        while self.buckets[t] == EMPTY
            invariant
                self.well_formed(),
                rg == self.ring@,
                n == rg.len() as int,
                n > 0,
                b0 == self.bucket_of(rg[0]),
                0 <= b0 < BUCKET_COUNT,
                self.buckets@[b0] as int == rg[0],
                0 <= t as int <= b0,
                forall|u: int| 0 <= u < t as int ==> self.buckets@[u] == EMPTY,
            decreases b0 - t,
        {
            proof {
                assert(self.buckets@[t as int] == EMPTY);
                assert(t as int != b0);
            }
            t = t + 1;
        }
        let start = self.buckets[t];
        proof {
            // an occupied bucket below b0 would hold a member below the
            // least bucket
            let kq = self.ring_position(self.buckets@[t as int] as int);
            self.lemma_ring_bucket_monotone(0, kq);
            assert(b0 <= self.bucket_of(rg[kq]));
            assert(self.bucket_of(rg[kq]) == t as int);
            assert(t as int == b0);
            assert(start as int == rg[0]);
        }
        // Walk the ring once, collecting edges.
        let mut out: Vec<usize> = Vec::new();
        let mut pos = start;
        let ghost mut j: int = 0;
        loop
            invariant_except_break
                self.well_formed(),
                rg == self.ring@,
                n == rg.len() as int,
                n > 0,
                start as int == rg[0],
                0 <= j < n,
                pos as int == rg[j],
                out@.len() == j,
                forall|i: int| 0 <= i < j ==> out@[i] == self.edge_of(#[trigger] rg[i]),
            ensures
                out@.len() == n,
                forall|i: int| 0 <= i < n ==> out@[i] == self.edge_of(#[trigger] rg[i]),
            decreases n - j,
        {
            out.push(self.data[pos].edge);
            pos = self.data[pos].next;
            proof {
                j = j + 1;
                assert(pos as int == rg[if j == n { 0int } else { j }]);
            }
            if pos == start {
                proof {
                    if j < n {
                        self.lemma_positions_distinct(j, 0);
                    }
                    assert(j == n);
                }
                break;
            }
            proof {
                if j == n {
                    assert(pos as int == rg[0]);
                    assert(pos == start);
                }
            }
        }
        out
    }
}

impl Default for Hull {
    /// An empty hull over an empty point set.
    fn default() -> (h: Hull)
        ensures
            h.well_formed(),
            h.len() == 0,
            h.member_count() == 0,
    {
        Hull::new(Vec::new())
    }
}

/// How `insert` rewrites the node array: `p` takes its edge and both links,
/// its ring successor's `prev` and predecessor's `next` point at `p`, and
/// every angle, every other edge, and every other link is untouched.
spec fn insert_data_shape(h0: Hull, h1: Hull, p: int, e: usize) -> bool {
    let a = h0.data@[p].angle;
    let n = h0.ring@.len() as int;
    let k = h0.angle_rank(a);
    let nxt = h0.ring@[if k == n { 0int } else { k }];
    let prv = h0.ring@[if k == 0 { n - 1 } else { k - 1 }];
    &&& h1.data@.len() == h0.data@.len()
    &&& forall|i: int| 0 <= i < h0.data@.len()
        ==> (#[trigger] h1.data@[i]).angle == h0.data@[i].angle
    &&& forall|i: int| 0 <= i < h0.data@.len() && i != p
        ==> (#[trigger] h1.data@[i]).edge == h0.data@[i].edge
    &&& h1.data@[p].edge == e
    &&& forall|i: int| 0 <= i < h0.data@.len()
        ==> (#[trigger] h1.data@[i]).next as int
            == (if i == p { nxt } else if i == prv { p } else { h0.data@[i].next as int })
    &&& forall|i: int| 0 <= i < h0.data@.len()
        ==> (#[trigger] h1.data@[i]).prev as int
            == (if i == p { prv } else if i == nxt { p } else { h0.data@[i].prev as int })
}

/// How `insert` rewrites the bucket table: `p` replaces the head of its
/// bucket exactly when that bucket was unoccupied, or its head was `p`'s
/// ring successor with a larger angle.
spec fn insert_buckets_shape(h0: Hull, h1: Hull, p: int) -> bool {
    let a = h0.data@[p].angle;
    let n = h0.ring@.len() as int;
    let k = h0.angle_rank(a);
    let b = spec_bucket_of_angle(a);
    let nxt = h0.ring@[if k == n { 0int } else { k }];
    let promote = h0.buckets@[b] == EMPTY
        || (h0.buckets@[b] as int == nxt && a < h0.data@[nxt].angle);
    h1.buckets@ == if promote { h0.buckets@.update(b, p as usize) } else { h0.buckets@ }
}

/// Common preconditions of the `insert` preservation lemmas.
spec fn insert_pre(h0: Hull, h1: Hull, p: int, e: usize) -> bool {
    &&& h0.well_formed()
    &&& h0.ring@.len() > 0
    &&& 0 <= p < h0.data@.len()
    &&& !h0.ring@.contains(p)
    &&& h0.angle_fresh(h0.data@[p].angle)
    &&& insert_data_shape(h0, h1, p, e)
    &&& insert_buckets_shape(h0, h1, p)
    &&& h1.ring@ == h0.ring@.insert(h0.angle_rank(h0.data@[p].angle), p)
}

/// Shared consequences of `insert_pre` that the preservation lemmas lean on:
/// how the new ring indexes into the old, and how angles and buckets sit
/// around the spliced point's rank.
#[verifier::spinoff_prover]
proof fn lemma_insert_frame(h0: Hull, h1: Hull, p: int, e: usize)
    requires
        insert_pre(h0, h1, p, e),
    ensures
        ({
            let r = h0.ring@;
            let n = r.len() as int;
            let a = h0.data@[p].angle;
            let k = h0.angle_rank(a);
            let r1 = h1.ring@;
            &&& 0 <= k <= n
            &&& r1.len() == n + 1
            &&& (forall|i: int| 0 <= i < k ==> #[trigger] r1[i] == r[i])
            &&& (forall|i: int| k <= i < n ==> #[trigger] r1[i + 1] == r[i])
            &&& r1[k] == p
            &&& (forall|i: int| 0 <= i < k ==> h0.data@[#[trigger] r[i]].angle < a)
            &&& (forall|i: int| k <= i < n ==> h0.data@[#[trigger] r[i]].angle > a)
            &&& (forall|i: int| 0 <= i < k
                ==> h0.bucket_of(#[trigger] r[i]) <= spec_bucket_of_angle(a))
            &&& (forall|i: int| k <= i < n
                ==> h0.bucket_of(#[trigger] r[i]) >= spec_bucket_of_angle(a))
            &&& (forall|x: int| 0 <= x < h0.data@.len()
                ==> #[trigger] h1.bucket_of(x) == h0.bucket_of(x))
            &&& h1.bucket_of(p) == spec_bucket_of_angle(a)
            &&& 0 <= spec_bucket_of_angle(a) < BUCKET_COUNT
        }),
{
    let r = h0.ring@;
    let n = r.len() as int;
    let a = h0.data@[p].angle;
    let k = h0.angle_rank(a);
    h0.lemma_angle_rank_properties(a);
    r.insert_ensures(k, p);
    lemma_bucket_range(a);
    assert forall|i: int| k <= i < n implies h0.data@[#[trigger] r[i]].angle > a by {
        assert(h0.angle_of(r[i]) != a);
    }
    assert forall|i: int| 0 <= i < k
        implies h0.bucket_of(#[trigger] r[i]) <= spec_bucket_of_angle(a) by {
        lemma_bucket_monotone(h0.data@[r[i]].angle, a);
    }
    assert forall|i: int| k <= i < n
        implies h0.bucket_of(#[trigger] r[i]) >= spec_bucket_of_angle(a) by {
        lemma_bucket_monotone(a, h0.data@[r[i]].angle);
    }
    assert forall|x: int| 0 <= x < h0.data@.len()
        implies #[trigger] h1.bucket_of(x) == h0.bucket_of(x) by {
        assert(h1.data@[x].angle == h0.data@[x].angle);
    }
}

/// A run start strictly below the spliced point's rank keeps its old head.
#[verifier::spinoff_prover]
proof fn lemma_insert_head_low(h0: Hull, h1: Hull, p: int, e: usize, k1: int)
    requires
        insert_pre(h0, h1, p, e),
        0 <= k1 < h0.angle_rank(h0.data@[p].angle),
        h1.run_start(k1),
    ensures
        h1.buckets@[h1.bucket_of(h1.ring@[k1])] as int == h1.ring@[k1],
{
    let r = h0.ring@;
    let n = r.len() as int;
    let a = h0.data@[p].angle;
    let k = h0.angle_rank(a);
    let b = spec_bucket_of_angle(a);
    let r1 = h1.ring@;
    let nxt = r[if k == n { 0int } else { k }];
    lemma_insert_frame(h0, h1, p, e);
    assert(r1[k1] == r[k1]);
    if k1 > 0 {
        assert(r1[k1 - 1] == r[k1 - 1]);
    }
    assert(h0.run_start(k1));
    let bb = h0.bucket_of(r[k1]);
    lemma_bucket_range(h0.data@[r[k1]].angle);
    assert(0 <= bb < BUCKET_COUNT);
    assert(h0.buckets@[bb] as int == r[k1]);
    let promote = h0.buckets@[b] == EMPTY
        || (h0.buckets@[b] as int == nxt && a < h0.data@[nxt].angle);
    if promote && bb == b {
        assert(h0.buckets@[b] as int == r[k1]);
        assert(h0.buckets@[b] != EMPTY);
        assert(h0.buckets@[b] as int == nxt && a < h0.data@[nxt].angle);
        if k == n {
            assert(nxt == r[0]);
            assert(h0.data@[r[0]].angle < a);
            assert(false);
        } else {
            assert(nxt == r[k]);
            h0.lemma_positions_distinct_all(k1, k);
            assert(false);
        }
    }
    assert(h1.buckets@[bb] as int == r1[k1]);
}

/// When the spliced point is not promoted to bucket head, it lands mid-run:
/// its ring predecessor already sits in its bucket.
#[verifier::spinoff_prover]
proof fn lemma_insert_not_run_start(h0: Hull, h1: Hull, p: int, e: usize)
    requires
        insert_pre(h0, h1, p, e),
        !(h0.buckets@[spec_bucket_of_angle(h0.data@[p].angle)] == EMPTY
            || (h0.buckets@[spec_bucket_of_angle(h0.data@[p].angle)] as int
                    == h0.ring@[
                        if h0.angle_rank(h0.data@[p].angle) == h0.ring@.len() as int {
                            0int
                        } else {
                            h0.angle_rank(h0.data@[p].angle)
                        }
                    ]
                && h0.data@[p].angle < h0.data@[
                    h0.ring@[
                        if h0.angle_rank(h0.data@[p].angle) == h0.ring@.len() as int {
                            0int
                        } else {
                            h0.angle_rank(h0.data@[p].angle)
                        }
                    ]
                ].angle)),
    ensures
        !h1.run_start(h0.angle_rank(h0.data@[p].angle)),
{
    let r = h0.ring@;
    let n = r.len() as int;
    let a = h0.data@[p].angle;
    let k = h0.angle_rank(a);
    let b = spec_bucket_of_angle(a);
    let r1 = h1.ring@;
    let nxt = r[if k == n { 0int } else { k }];
    lemma_insert_frame(h0, h1, p, e);
    assert(h0.buckets@[b] != EMPTY);
    let kh = h0.bucket_head_position(b);
    if kh >= k {
        if kh > k {
            assert(h0.bucket_of(r[k]) < b);
            assert(h0.bucket_of(r[k]) >= b);
            assert(false);
        } else {
            assert(k < n);
            assert(h0.buckets@[b] as int == r[k]);
            assert(nxt == r[k]);
            assert(h0.data@[r[k]].angle > a);
            assert(false);
        }
    }
    assert(kh < k);
    assert(k > 0);
    h0.lemma_ring_bucket_monotone(kh, k - 1);
    assert(h0.bucket_of(r[k - 1]) >= b);
    assert(h0.bucket_of(r[k - 1]) <= b);
    assert(r1[k - 1] == r[k - 1]);
    assert(h1.bucket_of(r1[k - 1]) == b);
    assert(h1.bucket_of(r1[k]) == b);
}

/// A run start strictly above the spliced point's rank keeps its old head.
#[verifier::spinoff_prover]
proof fn lemma_insert_head_high(h0: Hull, h1: Hull, p: int, e: usize, k1: int)
    requires
        insert_pre(h0, h1, p, e),
        h0.angle_rank(h0.data@[p].angle) < k1 < h1.ring@.len(),
        h1.run_start(k1),
    ensures
        h1.buckets@[h1.bucket_of(h1.ring@[k1])] as int == h1.ring@[k1],
{
    let r = h0.ring@;
    let n = r.len() as int;
    let a = h0.data@[p].angle;
    let k = h0.angle_rank(a);
    let b = spec_bucket_of_angle(a);
    let r1 = h1.ring@;
    let nxt = r[if k == n { 0int } else { k }];
    lemma_insert_frame(h0, h1, p, e);
    assert(r1[k1] == r[k1 - 1]);
    let bb = h0.bucket_of(r[k1 - 1]);
    lemma_bucket_range(h0.data@[r[k1 - 1]].angle);
    assert(0 <= bb < BUCKET_COUNT);
    assert(bb >= b);
    if k1 == k + 1 {
        // predecessor is the spliced point itself, in bucket b
        assert(r1[k] == p);
        assert(h1.bucket_of(r1[k1 - 1]) == b);
        assert(bb != b);
        assert(h0.run_start(k)) by {
            if k > 0 {
                assert(h0.bucket_of(r[k - 1]) <= b);
            }
        }
    } else {
        assert(r1[k1 - 1] == r[k1 - 2]);
        assert(h0.run_start(k1 - 1));
    }
    assert(h0.buckets@[bb] as int == r[k1 - 1]);
    let promote = h0.buckets@[b] == EMPTY
        || (h0.buckets@[b] as int == nxt && a < h0.data@[nxt].angle);
    if promote && bb == b {
        assert(h0.buckets@[b] as int == r[k1 - 1]);
        assert(h0.buckets@[b] != EMPTY);
        assert(h0.buckets@[b] as int == nxt && a < h0.data@[nxt].angle);
        if k == n {
            assert(nxt == r[0]);
            assert(h0.data@[r[0]].angle < a);
            assert(false);
        } else {
            assert(nxt == r[k]);
            h0.lemma_positions_distinct_all(k1 - 1, k);
            assert(false);
        }
    }
    assert(h1.buckets@[bb] as int == r1[k1]);
}

/// The bucket table after `insert`: every run start still maps to its head,
/// and every head is still a member of its bucket.
#[verifier::spinoff_prover]
proof fn lemma_insert_buckets_ok(h0: Hull, h1: Hull, p: int, e: usize)
    requires
        insert_pre(h0, h1, p, e),
    ensures
        h1.buckets_ok(),
{
    let r = h0.ring@;
    let n = r.len() as int;
    let a = h0.data@[p].angle;
    let k = h0.angle_rank(a);
    let b = spec_bucket_of_angle(a);
    let r1 = h1.ring@;
    let nxt = r[if k == n { 0int } else { k }];
    lemma_insert_frame(h0, h1, p, e);
    let promote = h0.buckets@[b] == EMPTY
        || (h0.buckets@[b] as int == nxt && a < h0.data@[nxt].angle);

    assert forall|k1: int| 0 <= k1 < r1.len() && h1.run_start(k1)
        implies (#[trigger] h1.buckets@[h1.bucket_of(r1[k1])]) as int == r1[k1] by {
        if k1 < k {
            lemma_insert_head_low(h0, h1, p, e, k1);
        } else if k1 == k {
            if promote {
                assert(h1.buckets@[b] as int == p);
                assert(r1[k1] == p);
            } else {
                lemma_insert_not_run_start(h0, h1, p, e);
                assert(false);
            }
        } else {
            lemma_insert_head_high(h0, h1, p, e, k1);
        }
    }

    assert forall|bb: int| 0 <= bb < BUCKET_COUNT
        implies ((#[trigger] h1.buckets@[bb]) == EMPTY
            || (r1.contains(h1.buckets@[bb] as int)
                && h1.bucket_of(h1.buckets@[bb] as int) == bb)) by {
        if promote && bb == b {
            assert(h1.buckets@[b] as int == p);
            assert(r1[k] == p);
        } else {
            assert(h1.buckets@[bb] == h0.buckets@[bb]);
            if h0.buckets@[bb] != EMPTY {
                let x = h0.buckets@[bb] as int;
                assert(r.contains(x));
                let j = choose|j: int| 0 <= j < n && r[j] == x;
                assert(r1[if j < k { j } else { j + 1 }] == x);
                assert(r1.contains(x));
            }
        }
    }
}

/// The successor links after `insert` trace the new ring in order.
#[verifier::rlimit(100)]
#[verifier::spinoff_prover]
proof fn lemma_insert_next_links(h0: Hull, h1: Hull, p: int, e: usize)
    requires
        insert_pre(h0, h1, p, e),
    ensures
        forall|k1: int| 0 <= k1 < h1.ring@.len()
            ==> (#[trigger] h1.data@[h1.ring@[k1]].next) as int
                == h1.ring@[if k1 + 1 == h1.ring@.len() as int { 0int } else { k1 + 1 }],
{
    let r = h0.ring@;
    let n = r.len() as int;
    let a = h0.data@[p].angle;
    let k = h0.angle_rank(a);
    let r1 = h1.ring@;
    let nxt = r[if k == n { 0int } else { k }];
    let prv = r[if k == 0 { n - 1 } else { k - 1 }];
    lemma_insert_frame(h0, h1, p, e);
    assert forall|k1: int| 0 <= k1 < n + 1
        implies (#[trigger] h1.data@[r1[k1]].next) as int
            == r1[if k1 + 1 == n + 1 { 0int } else { k1 + 1 }] by {
        if k1 == k {
            assert(r1[k1] == p);
            assert(h1.data@[p].next as int == nxt);
            if k == n {
                assert(r1[0] == r[0]);
            } else {
                assert(r1[k + 1] == r[k]);
            }
        } else {
            let i0 = if k1 < k { k1 } else { k1 - 1 };
            assert(r1[k1] == r[i0]);
            assert(r[i0] != p);
            if i0 == (if k == 0 { n - 1 } else { k - 1 }) {
                // p's ring predecessor: its next now points at p
                assert(h1.data@[r[i0]].next as int == p);
                if k == 0 {
                    assert(i0 == n - 1 && k1 == n);
                    assert(r1[0] == p);
                } else {
                    assert(k1 == k - 1);
                    assert(r1[k] == p);
                }
            } else {
                h0.lemma_positions_distinct_all(i0, if k == 0 { n - 1 } else { k - 1 });
                assert(h1.data@[r[i0]].next == h0.data@[r[i0]].next);
                let succ0 = if i0 + 1 == n { 0int } else { i0 + 1 };
                assert(h0.data@[r[i0]].next as int == r[succ0]);
                if k1 < k {
                    if k1 + 1 < k {
                        assert(r1[k1 + 1] == r[k1 + 1]);
                    } else {
                        assert(k1 + 1 == k);
                        assert(false);
                    }
                } else {
                    if k1 + 1 == n + 1 {
                        assert(i0 == n - 1);
                        assert(k != 0);
                        assert(succ0 == 0);
                        assert(r1[0] == r[0]);
                    } else {
                        assert(r1[k1 + 1] == r[k1]);
                        assert(succ0 == k1);
                    }
                }
            }
        }
    }
}

/// The predecessor links after `insert` trace the new ring in reverse.
#[verifier::rlimit(100)]
#[verifier::spinoff_prover]
proof fn lemma_insert_prev_links(h0: Hull, h1: Hull, p: int, e: usize)
    requires
        insert_pre(h0, h1, p, e),
    ensures
        forall|k1: int| 0 <= k1 < h1.ring@.len()
            ==> (#[trigger] h1.data@[h1.ring@[k1]].prev) as int
                == h1.ring@[if k1 == 0 { h1.ring@.len() - 1 } else { k1 - 1 }],
{
    let r = h0.ring@;
    let n = r.len() as int;
    let a = h0.data@[p].angle;
    let k = h0.angle_rank(a);
    let r1 = h1.ring@;
    let nxt = r[if k == n { 0int } else { k }];
    let prv = r[if k == 0 { n - 1 } else { k - 1 }];
    lemma_insert_frame(h0, h1, p, e);
    assert forall|k1: int| 0 <= k1 < n + 1
        implies (#[trigger] h1.data@[r1[k1]].prev) as int
            == r1[if k1 == 0 { n + 1 - 1 } else { k1 - 1 }] by {
        if k1 == k {
            assert(r1[k1] == p);
            assert(h1.data@[p].prev as int == prv);
            if k == 0 {
                assert(r1[n] == r[n - 1]);
            } else {
                assert(r1[k - 1] == r[k - 1]);
            }
        } else {
            let i0 = if k1 < k { k1 } else { k1 - 1 };
            assert(r1[k1] == r[i0]);
            assert(r[i0] != p);
            if i0 == (if k == n { 0int } else { k }) {
                // p's ring successor: its prev now points at p
                assert(h1.data@[r[i0]].prev as int == p);
                if k == n {
                    assert(i0 == 0 && k1 == 0);
                    assert(r1[n] == p);
                } else {
                    assert(k1 == k + 1);
                    assert(r1[k] == p);
                }
            } else {
                h0.lemma_positions_distinct_all(i0, if k == n { 0int } else { k });
                assert(h1.data@[r[i0]].prev == h0.data@[r[i0]].prev);
                let pred0 = if i0 == 0 { n - 1 } else { i0 - 1 };
                assert(h0.data@[r[i0]].prev as int == r[pred0]);
                if k1 < k {
                    if k1 == 0 {
                        assert(i0 == 0);
                        assert(k != 0);
                        assert(pred0 == n - 1);
                        assert(r1[n] == r[n - 1]);
                    } else {
                        assert(r1[k1 - 1] == r[k1 - 1]);
                        assert(pred0 == k1 - 1);
                    }
                } else {
                    if k1 - 1 == k {
                        assert(i0 == k);
                        assert(k < n);
                        assert(false);
                    }
                    assert(r1[k1 - 1] == r[k1 - 2]);
                    assert(pred0 == i0 - 1);
                }
            }
        }
    }
}

/// The new ring stays within bounds and strictly sorted by angle.
#[verifier::spinoff_prover]
proof fn lemma_insert_ring_order(h0: Hull, h1: Hull, p: int, e: usize)
    requires
        insert_pre(h0, h1, p, e),
    ensures
        forall|k1: int| 0 <= k1 < h1.ring@.len()
            ==> 0 <= #[trigger] h1.ring@[k1] < h1.data@.len(),
        forall|k1: int, k2: int|
            #![trigger h1.ring@[k1], h1.ring@[k2]]
            0 <= k1 < k2 < h1.ring@.len()
                ==> h1.data@[h1.ring@[k1]].angle < h1.data@[h1.ring@[k2]].angle,
{
    let r = h0.ring@;
    let n = r.len() as int;
    let a = h0.data@[p].angle;
    let k = h0.angle_rank(a);
    let r1 = h1.ring@;
    lemma_insert_frame(h0, h1, p, e);
    assert forall|k1: int| 0 <= k1 < r1.len() implies 0 <= #[trigger] r1[k1] < h1.data@.len() by {
        if k1 != k {
            let i0 = if k1 < k { k1 } else { k1 - 1 };
            assert(r1[k1] == r[i0]);
        }
    }
    assert forall|k1: int, k2: int|
        #![trigger r1[k1], r1[k2]]
        0 <= k1 < k2 < r1.len()
        implies h1.data@[r1[k1]].angle < h1.data@[r1[k2]].angle by {
        let x1 = if k1 < k { r[k1] } else if k1 == k { p } else { r[k1 - 1] };
        let x2 = if k2 < k { r[k2] } else if k2 == k { p } else { r[k2 - 1] };
        assert(r1[k1] == x1 && r1[k2] == x2);
        assert(h1.data@[x1].angle == h0.data@[x1].angle);
        assert(h1.data@[x2].angle == h0.data@[x2].angle);
    }
}

/// Links of points outside the new ring still carry the sentinel.
#[verifier::spinoff_prover]
proof fn lemma_insert_absent(h0: Hull, h1: Hull, p: int, e: usize)
    requires
        insert_pre(h0, h1, p, e),
    ensures
        h1.absent_ok(),
{
    let r = h0.ring@;
    let n = r.len() as int;
    let a = h0.data@[p].angle;
    let k = h0.angle_rank(a);
    let r1 = h1.ring@;
    lemma_insert_frame(h0, h1, p, e);
    let nxt = r[if k == n { 0int } else { k }];
    let prv = r[if k == 0 { n - 1 } else { k - 1 }];
    assert(insert_data_shape(h0, h1, p, e));
    assert(h1.data@.len() == h0.data@.len());
    assert forall|i: int| 0 <= i < h1.data@.len() && !h1.ring@.contains(i)
        implies (#[trigger] h1.data@[i].next) == EMPTY && h1.data@[i].prev == EMPTY by {
        assert(i != p) by {
            assert(r1[k] == p);
        }
        if r.contains(i) {
            let j = choose|j: int| 0 <= j < n && r[j] == i;
            assert(r1[if j < k { j } else { j + 1 }] == i);
            assert(false);
        }
        lemma_absent_at(h0, i);
        assert(h0.data@[i].next == EMPTY && h0.data@[i].prev == EMPTY);
        assert(r.contains(nxt) && r.contains(prv));
        assert(i != nxt && i != prv);
        assert(h1.data@[i].next == h0.data@[i].next);
        assert(h1.data@[i].prev == h0.data@[i].prev);
    }
}

/// Splicing a fresh-angled point into the ring at its rank, with the bucket
/// promotion rule above, preserves well-formedness.
#[verifier::spinoff_prover]
proof fn lemma_insert_wf(h0: Hull, h1: Hull, p: int, e: usize)
    requires
        insert_pre(h0, h1, p, e),
    ensures
        h1.well_formed(),
{
    lemma_insert_frame(h0, h1, p, e);
    assert(h1.nodes_ok()) by {
        assert forall|i: int| 0 <= i < h1.data@.len()
            implies (#[trigger] h1.data@[i].angle) <= ANGLE_ONE by {
            assert(h1.data@[i].angle == h0.data@[i].angle);
        }
    }
    lemma_insert_ring_order(h0, h1, p, e);
    lemma_insert_next_links(h0, h1, p, e);
    lemma_insert_prev_links(h0, h1, p, e);
    assert(h1.ring_ok());
    lemma_insert_absent(h0, h1, p, e);
    lemma_insert_buckets_ok(h0, h1, p, e);
    assert(h1.well_formed());
}

/// Making a sole member `p` into a one-node self-loop, at the head of its
/// bucket, restores well-formedness of an empty hull.
#[verifier::spinoff_prover]
proof fn lemma_insert_first_wf(h0: Hull, h1: Hull, p: usize, e: usize, b: usize)
    requires
        h0.well_formed(),
        h0.ring@.len() == 0,
        (p as int) < h0.data@.len(),
        b as int == spec_bucket_of_angle(h0.data@[p as int].angle),
        0 <= b < BUCKET_COUNT,
        h1.data@ == h0.data@.update(
            p as int,
            Node { angle: h0.data@[p as int].angle, edge: e, prev: p, next: p },
        ),
        h1.buckets@ == h0.buckets@.update(b as int, p),
        h1.ring@ == seq![p as int],
    ensures
        h1.well_formed(),
{
    assert(h1.ring@[0] == p as int);
    assert forall|i: int| 0 <= i < h1.data@.len() && !h1.ring@.contains(i)
        implies (#[trigger] h1.data@[i].next) == EMPTY && h1.data@[i].prev == EMPTY by {
        assert(i != p);
        assert(h1.data@.len() == h0.data@.len());
        assert(0 <= i < h0.data@.len());
        assert(!h0.ring@.contains(i));
        assert(h0.absent_ok());
        assert(h0.data@[i].next == EMPTY && h0.data@[i].prev == EMPTY);
    }
    assert forall|bb: int| 0 <= bb < BUCKET_COUNT implies ((#[trigger] h1.buckets@[bb]) == EMPTY
        || (h1.ring@.contains(h1.buckets@[bb] as int)
            && h1.bucket_of(h1.buckets@[bb] as int) == bb)) by {
        if bb == b {
            assert(h1.buckets@[bb] == p);
            assert(h1.ring@.contains(p as int));
            assert(h1.angle_of(p as int) == h0.data@[p as int].angle);
        } else {
            assert(h1.buckets@[bb] == h0.buckets@[bb]);
            assert(!h0.ring@.contains(h0.buckets@[bb] as int));
            assert(h0.buckets@[bb] == EMPTY);
        }
    }
    assert(h1.bucket_of(h1.ring@[0]) == b as int);
    assert(h1.nodes_ok());
    assert(h1.ring_ok());
    assert(h1.absent_ok());
    assert(h1.buckets_ok());
}

/// How `erase` rewrites the node array: `p`'s links become the sentinel,
/// its ring neighbours are joined to each other, and every angle and every
/// edge (including `p`'s) is untouched.
spec fn erase_data_shape(h0: Hull, h1: Hull, p: int) -> bool {
    let n = h0.ring@.len() as int;
    let k = h0.position_of(p);
    let nxt = h0.ring@[if k + 1 == n { 0int } else { k + 1 }];
    let prv = h0.ring@[if k == 0 { n - 1 } else { k - 1 }];
    &&& h1.data@.len() == h0.data@.len()
    &&& forall|i: int| 0 <= i < h0.data@.len()
        ==> (#[trigger] h1.data@[i]).angle == h0.data@[i].angle
    &&& forall|i: int| 0 <= i < h0.data@.len()
        ==> (#[trigger] h1.data@[i]).edge == h0.data@[i].edge
    &&& forall|i: int| 0 <= i < h0.data@.len()
        ==> (#[trigger] h1.data@[i]).next as int
            == (if i == p { EMPTY as int } else if i == prv { nxt } else { h0.data@[i].next as int })
    &&& forall|i: int| 0 <= i < h0.data@.len()
        ==> (#[trigger] h1.data@[i]).prev as int
            == (if i == p { EMPTY as int } else if i == nxt { prv } else { h0.data@[i].prev as int })
}

/// How `erase` rewrites the bucket table: where `p` was the head, the head
/// becomes `p`'s ring successor if that successor is a different point still
/// in the bucket, and the sentinel otherwise.
spec fn erase_buckets_shape(h0: Hull, h1: Hull, p: int) -> bool {
    let n = h0.ring@.len() as int;
    let k = h0.position_of(p);
    let b = h0.bucket_of(p);
    let nxt = h0.ring@[if k + 1 == n { 0int } else { k + 1 }];
    h1.buckets@ == if h0.buckets@[b] as int == p {
        h0.buckets@.update(
            b,
            if nxt != p && h0.bucket_of(nxt) == b { nxt as usize } else { EMPTY },
        )
    } else {
        h0.buckets@
    }
}

/// Common preconditions of the `erase` preservation lemmas.
spec fn erase_pre(h0: Hull, h1: Hull, p: int) -> bool {
    &&& h0.well_formed()
    &&& h0.ring@.contains(p)
    &&& erase_data_shape(h0, h1, p)
    &&& erase_buckets_shape(h0, h1, p)
    &&& h1.ring@ == h0.ring@.remove(h0.position_of(p))
}

/// Shared consequences of `erase_pre`: how the shrunken ring indexes into
/// the old one.
#[verifier::spinoff_prover]
proof fn lemma_erase_frame(h0: Hull, h1: Hull, p: int)
    requires
        erase_pre(h0, h1, p),
    ensures
        ({
            let r = h0.ring@;
            let n = r.len() as int;
            let k = h0.position_of(p);
            let r1 = h1.ring@;
            &&& 0 <= k < n
            &&& r[k] == p
            &&& 0 <= p < h0.data@.len()
            &&& r1.len() == n - 1
            &&& (forall|i: int| 0 <= i < k ==> #[trigger] r1[i] == r[i])
            &&& (forall|i: int| k <= i < n - 1 ==> #[trigger] r1[i] == r[i + 1])
            &&& (forall|x: int| 0 <= x < h0.data@.len()
                ==> #[trigger] h1.bucket_of(x) == h0.bucket_of(x))
            &&& 0 <= h0.bucket_of(p) < BUCKET_COUNT
        }),
{
    let r = h0.ring@;
    let n = r.len() as int;
    let k = h0.ring_position(p);
    r.remove_ensures(k);
    assert forall|i: int| 0 <= i < k implies #[trigger] h1.ring@[i] == r[i] by {
        assert(r.remove(k)[i] == r[i]);
    }
    assert forall|i: int| k <= i < n - 1 implies #[trigger] h1.ring@[i] == r[i + 1] by {
        assert(r.remove(k)[i] == r[i + 1]);
    }
    assert forall|x: int| 0 <= x < h0.data@.len()
        implies #[trigger] h1.bucket_of(x) == h0.bucket_of(x) by {
        assert(h1.data@[x].angle == h0.data@[x].angle);
    }
    lemma_bucket_range(h0.data@[p].angle);
}

/// The successor links after `erase` trace the shrunken ring in order.
#[verifier::rlimit(100)]
#[verifier::spinoff_prover]
proof fn lemma_erase_next_links(h0: Hull, h1: Hull, p: int)
    requires
        erase_pre(h0, h1, p),
        h1.ring@.len() > 0,
    ensures
        forall|k1: int| 0 <= k1 < h1.ring@.len()
            ==> (#[trigger] h1.data@[h1.ring@[k1]].next) as int
                == h1.ring@[if k1 + 1 == h1.ring@.len() as int { 0int } else { k1 + 1 }],
{
    let r = h0.ring@;
    let n = r.len() as int;
    let k = h0.position_of(p);
    let r1 = h1.ring@;
    let nxt = r[if k + 1 == n { 0int } else { k + 1 }];
    let prv = r[if k == 0 { n - 1 } else { k - 1 }];
    lemma_erase_frame(h0, h1, p);
    assert forall|k1: int| 0 <= k1 < n - 1
        implies (#[trigger] h1.data@[r1[k1]].next) as int
            == r1[if k1 + 1 == n - 1 { 0int } else { k1 + 1 }] by {
        let i0 = if k1 < k { k1 } else { k1 + 1 };
        assert(r1[k1] == r[i0]);
        h0.lemma_positions_distinct_all(i0, k);
        assert(r[i0] != p);
        let kprv = if k == 0 { n - 1 } else { k - 1 };
        if i0 == kprv {
            // p's old predecessor: joined to p's old successor
            assert(h1.data@[r[i0]].next as int == nxt);
            if k == 0 {
                assert(i0 == n - 1 && k1 == n - 2);
                assert(nxt == r[1]);
                assert(r1[0] == r[1]);
            } else if k == n - 1 {
                assert(i0 == k - 1 && k1 == k - 1 && k1 == n - 2);
                assert(nxt == r[0]);
                assert(r1[0] == r[0]);
            } else {
                assert(i0 == k - 1 && k1 == k - 1);
                assert(nxt == r[k + 1]);
                assert(r1[k] == r[k + 1]);
            }
        } else {
            assert(h1.data@[r[i0]].next == h0.data@[r[i0]].next);
            let succ0 = if i0 + 1 == n { 0int } else { i0 + 1 };
            assert(h0.data@[r[i0]].next as int == r[succ0]);
            assert(succ0 != k) by {
                if succ0 == k {
                    assert(i0 == kprv);
                }
            }
            if k1 + 1 == n - 1 {
                // wrap in the new ring
                assert(i0 == n - 1 || (i0 == n - 2 && k == n - 1));
                if i0 == n - 1 {
                    assert(succ0 == 0);
                    assert(k != 0);
                    assert(r1[0] == r[0]);
                } else {
                    assert(succ0 == n - 1);
                    assert(k == n - 1);
                    assert(false);
                }
            } else {
                if k1 + 1 < k {
                    assert(r1[k1 + 1] == r[k1 + 1]);
                    assert(succ0 == k1 + 1);
                } else if k1 < k {
                    // k1 + 1 == k: i0 == k1 == kprv, excluded
                    assert(i0 == k - 1);
                    assert(false);
                } else {
                    assert(r1[k1 + 1] == r[k1 + 2]);
                    assert(succ0 == i0 + 1);
                }
            }
        }
    }
}

/// The predecessor links after `erase` trace the shrunken ring in reverse.
#[verifier::rlimit(100)]
#[verifier::spinoff_prover]
proof fn lemma_erase_prev_links(h0: Hull, h1: Hull, p: int)
    requires
        erase_pre(h0, h1, p),
        h1.ring@.len() > 0,
    ensures
        forall|k1: int| 0 <= k1 < h1.ring@.len()
            ==> (#[trigger] h1.data@[h1.ring@[k1]].prev) as int
                == h1.ring@[if k1 == 0 { h1.ring@.len() - 1 } else { k1 - 1 }],
{
    let r = h0.ring@;
    let n = r.len() as int;
    let k = h0.position_of(p);
    let r1 = h1.ring@;
    let nxt = r[if k + 1 == n { 0int } else { k + 1 }];
    let prv = r[if k == 0 { n - 1 } else { k - 1 }];
    lemma_erase_frame(h0, h1, p);
    assert forall|k1: int| 0 <= k1 < n - 1
        implies (#[trigger] h1.data@[r1[k1]].prev) as int
            == r1[if k1 == 0 { n - 1 - 1 } else { k1 - 1 }] by {
        let i0 = if k1 < k { k1 } else { k1 + 1 };
        assert(r1[k1] == r[i0]);
        h0.lemma_positions_distinct_all(i0, k);
        assert(r[i0] != p);
        let knxt = if k + 1 == n { 0int } else { k + 1 };
        if i0 == knxt {
            // p's old successor: joined to p's old predecessor
            assert(h1.data@[r[i0]].prev as int == prv);
            if k + 1 == n {
                assert(i0 == 0 && k1 == 0);
                assert(prv == r[k - 1]) by {
                    assert(k != 0);
                }
                assert(r1[n - 2] == r[n - 2]);
            } else if k == 0 {
                assert(i0 == 1 && k1 == 0);
                assert(prv == r[n - 1]);
                assert(r1[n - 2] == r[n - 1]);
            } else {
                assert(i0 == k + 1 && k1 == k);
                assert(prv == r[k - 1]);
                assert(r1[k - 1] == r[k - 1]);
            }
        } else {
            assert(h1.data@[r[i0]].prev == h0.data@[r[i0]].prev);
            let pred0 = if i0 == 0 { n - 1 } else { i0 - 1 };
            assert(h0.data@[r[i0]].prev as int == r[pred0]);
            assert(pred0 != k) by {
                if pred0 == k {
                    assert(i0 == knxt);
                }
            }
            if k1 == 0 {
                assert(i0 == 0 || (i0 == 1 && k == 0));
                if i0 == 0 {
                    assert(pred0 == n - 1);
                    assert(k != n - 1) by {
                        if k == n - 1 {
                            assert(pred0 == k);
                        }
                    }
                    assert(r1[n - 2] == r[n - 1]);
                } else {
                    assert(k == 0);
                    assert(i0 == knxt);
                    assert(false);
                }
            } else {
                if k1 - 1 < k {
                    if k1 == k {
                        // i0 == k + 1 == knxt unless k + 1 == n
                        assert(i0 == k + 1);
                        if k + 1 == n {
                            assert(false);
                        }
                        assert(i0 == knxt);
                        assert(false);
                    }
                    assert(r1[k1 - 1] == r[k1 - 1]);
                    assert(pred0 == k1 - 1);
                } else {
                    assert(r1[k1 - 1] == r[k1]);
                    assert(pred0 == i0 - 1);
                }
            }
        }
    }
}

/// A run start strictly below the erased point's position keeps its head.
#[verifier::spinoff_prover]
proof fn lemma_erase_head_low(h0: Hull, h1: Hull, p: int, k1: int)
    requires
        erase_pre(h0, h1, p),
        0 <= k1 < h0.position_of(p),
        h1.run_start(k1),
    ensures
        h1.buckets@[h1.bucket_of(h1.ring@[k1])] as int == h1.ring@[k1],
{
    let r = h0.ring@;
    let n = r.len() as int;
    let k = h0.position_of(p);
    let b = h0.bucket_of(p);
    let r1 = h1.ring@;
    lemma_erase_frame(h0, h1, p);
    assert(r1[k1] == r[k1]);
    if k1 > 0 {
        assert(r1[k1 - 1] == r[k1 - 1]);
    }
    assert(h0.run_start(k1));
    let bb = h0.bucket_of(r[k1]);
    lemma_bucket_range(h0.data@[r[k1]].angle);
    assert(h0.buckets@[bb] as int == r[k1]);
    if h0.buckets@[b] as int == p && bb == b {
        h0.lemma_positions_distinct_all(k1, k);
        assert(false);
    }
    assert(h1.buckets@[bb] as int == r1[k1]);
}

/// The position where the erased point stood: if the survivor there starts
/// a run, the bucket table points at it.
#[verifier::rlimit(100)]
#[verifier::spinoff_prover]
proof fn lemma_erase_head_at(h0: Hull, h1: Hull, p: int)
    requires
        erase_pre(h0, h1, p),
        h0.position_of(p) < h1.ring@.len(),
        h1.run_start(h0.position_of(p)),
    ensures
        h1.buckets@[h1.bucket_of(h1.ring@[h0.position_of(p)])] as int
            == h1.ring@[h0.position_of(p)],
{
    let r = h0.ring@;
    let n = r.len() as int;
    let k = h0.position_of(p);
    let b = h0.bucket_of(p);
    let r1 = h1.ring@;
    lemma_erase_frame(h0, h1, p);
    assert(k + 1 < n);
    let x = r[k + 1];
    assert(r1[k] == x);
    let nxt = r[if k + 1 == n { 0int } else { k + 1 }];
    assert(nxt == x);
    h0.lemma_positions_distinct_all(k + 1, k);
    let bb = h0.bucket_of(x);
    lemma_bucket_range(h0.data@[x].angle);
    if bb == b {
        if h0.buckets@[b] as int == p {
            // the head moves to p's successor, which is x itself
            assert(h1.buckets@[b] as int == x);
        } else {
            // p was mid-run, so x's new predecessor shares its bucket and
            // x cannot start a run
            let lo = h0.bucket_run_start(k);
            assert(h0.buckets@[b] != EMPTY);
            let kh = h0.bucket_head_position(b);
            assert(r[kh] as int == h0.buckets@[b] as int);
            if kh == k {
                h0.lemma_positions_distinct(kh, k);
                assert(false);
            }
            if k < kh {
                assert(h0.bucket_of(r[k]) < b);
                assert(false);
            }
            assert(kh < k);
            assert(k > 0);
            h0.lemma_run_contiguous(kh, k + 1, k - 1);
            assert(h0.bucket_of(r[k - 1]) == b);
            assert(r1[k - 1] == r[k - 1]);
            assert(h1.bucket_of(r1[k - 1]) == b);
            assert(h1.bucket_of(r1[k]) == b);
            assert(!h1.run_start(k));
            assert(false);
        }
    } else {
        // x already started a run before p was removed
        assert(h0.bucket_of(r[k]) == b);
        assert(h0.run_start(k + 1));
        assert(h0.buckets@[bb] as int == x);
        assert(h1.buckets@[bb] == h0.buckets@[bb]);
        assert(h1.buckets@[bb] as int == r1[k]);
    }
}

/// A run start strictly above the erased point's position keeps its head.
#[verifier::spinoff_prover]
proof fn lemma_erase_head_high(h0: Hull, h1: Hull, p: int, k1: int)
    requires
        erase_pre(h0, h1, p),
        h0.position_of(p) < k1 < h1.ring@.len(),
        h1.run_start(k1),
    ensures
        h1.buckets@[h1.bucket_of(h1.ring@[k1])] as int == h1.ring@[k1],
{
    let r = h0.ring@;
    let n = r.len() as int;
    let k = h0.position_of(p);
    let b = h0.bucket_of(p);
    let r1 = h1.ring@;
    lemma_erase_frame(h0, h1, p);
    assert(r1[k1] == r[k1 + 1]);
    assert(r1[k1 - 1] == r[k1]);
    assert(h0.run_start(k1 + 1));
    let bb = h0.bucket_of(r[k1 + 1]);
    lemma_bucket_range(h0.data@[r[k1 + 1]].angle);
    assert(h0.buckets@[bb] as int == r[k1 + 1]);
    if h0.buckets@[b] as int == p && bb == b {
        h0.lemma_positions_distinct_all(k1 + 1, k);
        assert(false);
    }
    assert(h1.buckets@[bb] as int == r1[k1]);
}

/// The bucket table after `erase`: every run start still maps to its head,
/// and every head is still a member of its bucket.
#[verifier::rlimit(100)]
#[verifier::spinoff_prover]
proof fn lemma_erase_buckets_ok(h0: Hull, h1: Hull, p: int)
    requires
        erase_pre(h0, h1, p),
    ensures
        h1.buckets_ok(),
{
    let r = h0.ring@;
    let n = r.len() as int;
    let k = h0.position_of(p);
    let b = h0.bucket_of(p);
    let r1 = h1.ring@;
    let nxt = r[if k + 1 == n { 0int } else { k + 1 }];
    lemma_erase_frame(h0, h1, p);

    assert forall|k1: int| 0 <= k1 < r1.len() && h1.run_start(k1)
        implies (#[trigger] h1.buckets@[h1.bucket_of(r1[k1])]) as int == r1[k1] by {
        if k1 < k {
            lemma_erase_head_low(h0, h1, p, k1);
        } else if k1 == k {
            lemma_erase_head_at(h0, h1, p);
        } else {
            lemma_erase_head_high(h0, h1, p, k1);
        }
    }

    assert forall|bb: int| 0 <= bb < BUCKET_COUNT
        implies ((#[trigger] h1.buckets@[bb]) == EMPTY
            || (r1.contains(h1.buckets@[bb] as int)
                && h1.bucket_of(h1.buckets@[bb] as int) == bb)) by {
        if h0.buckets@[b] as int == p && bb == b {
            if nxt != p && h0.bucket_of(nxt) == b {
                assert(h1.buckets@[b] as int == nxt);
                let knxt = if k + 1 == n { 0int } else { k + 1 };
                if knxt == k {
                    assert(nxt == p);
                    assert(false);
                }
                assert(r1[if knxt < k { knxt } else { knxt - 1 }] == nxt);
                assert(r1.contains(nxt));
            } else {
                assert(h1.buckets@[b] == EMPTY);
            }
        } else {
            assert(h1.buckets@[bb] == h0.buckets@[bb]);
            if h0.buckets@[bb] != EMPTY {
                let x = h0.buckets@[bb] as int;
                assert(r.contains(x));
                assert(h0.bucket_of(x) == bb);
                if x == p {
                    assert(bb == b);
                    assert(h0.buckets@[b] as int == p);
                    assert(false);
                }
                let j = choose|j: int| 0 <= j < n && r[j] == x;
                if j == k {
                    assert(x == p);
                    assert(false);
                }
                assert(r1[if j < k { j } else { j - 1 }] == x);
                assert(r1.contains(x));
            }
        }
    }
}

/// The shrunken ring stays within bounds and strictly sorted by angle, and
/// points outside it carry sentinel links.
#[verifier::spinoff_prover]
proof fn lemma_erase_order_absent(h0: Hull, h1: Hull, p: int)
    requires
        erase_pre(h0, h1, p),
    ensures
        forall|k1: int| 0 <= k1 < h1.ring@.len()
            ==> 0 <= #[trigger] h1.ring@[k1] < h1.data@.len(),
        forall|k1: int, k2: int|
            #![trigger h1.ring@[k1], h1.ring@[k2]]
            0 <= k1 < k2 < h1.ring@.len()
                ==> h1.data@[h1.ring@[k1]].angle < h1.data@[h1.ring@[k2]].angle,
        h1.absent_ok(),
{
    let r = h0.ring@;
    let n = r.len() as int;
    let k = h0.position_of(p);
    let r1 = h1.ring@;
    lemma_erase_frame(h0, h1, p);
    assert forall|k1: int| 0 <= k1 < r1.len() implies 0 <= #[trigger] r1[k1] < h1.data@.len() by {
        let i0 = if k1 < k { k1 } else { k1 + 1 };
        assert(r1[k1] == r[i0]);
    }
    assert forall|k1: int, k2: int|
        #![trigger r1[k1], r1[k2]]
        0 <= k1 < k2 < r1.len()
        implies h1.data@[r1[k1]].angle < h1.data@[r1[k2]].angle by {
        let x1 = if k1 < k { r[k1] } else { r[k1 + 1] };
        let x2 = if k2 < k { r[k2] } else { r[k2 + 1] };
        assert(r1[k1] == x1 && r1[k2] == x2);
        assert(h1.data@[x1].angle == h0.data@[x1].angle);
        assert(h1.data@[x2].angle == h0.data@[x2].angle);
    }
    let nxt = r[if k + 1 == n { 0int } else { k + 1 }];
    let prv = r[if k == 0 { n - 1 } else { k - 1 }];
    assert forall|i: int| 0 <= i < h1.data@.len() && !h1.ring@.contains(i)
        implies (#[trigger] h1.data@[i].next) == EMPTY && h1.data@[i].prev == EMPTY by {
        if i == p {
            assert(h1.data@[p].next as int == EMPTY as int);
            assert(h1.data@[p].prev as int == EMPTY as int);
        } else {
            if r.contains(i) {
                let j = choose|j: int| 0 <= j < n && r[j] == i;
                assert(j != k);
                assert(r1[if j < k { j } else { j - 1 }] == i);
                assert(false);
            }
            lemma_absent_at(h0, i);
            assert(r.contains(nxt) && r.contains(prv));
            assert(i != nxt && i != prv);
            assert(h1.data@[i].next == h0.data@[i].next);
            assert(h1.data@[i].prev == h0.data@[i].prev);
        }
    }
}

/// Removing a member and rejoining its neighbours, with the bucket demotion
/// rule above, preserves well-formedness.
#[verifier::spinoff_prover]
proof fn lemma_erase_wf(h0: Hull, h1: Hull, p: int)
    requires
        erase_pre(h0, h1, p),
    ensures
        h1.well_formed(),
{
    let r1 = h1.ring@;
    lemma_erase_frame(h0, h1, p);
    assert(h1.nodes_ok()) by {
        assert forall|i: int| 0 <= i < h1.data@.len()
            implies (#[trigger] h1.data@[i].angle) <= ANGLE_ONE by {
            assert(h1.data@[i].angle == h0.data@[i].angle);
        }
    }
    lemma_erase_order_absent(h0, h1, p);
    if r1.len() > 0 {
        lemma_erase_next_links(h0, h1, p);
        lemma_erase_prev_links(h0, h1, p);
    }
    assert(h1.ring_ok());
    lemma_erase_buckets_ok(h0, h1, p);
    assert(h1.well_formed());
}

/// A point outside the ring of a well-formed hull has sentinel links.
/// A point outside the ring of a well-formed hull has sentinel links.
proof fn lemma_absent_at(h: Hull, i: int)
    requires
        h.well_formed(),
        0 <= i < h.data@.len(),
        !h.ring@.contains(i),
    ensures
        h.data@[i].next == EMPTY,
        h.data@[i].prev == EMPTY,
{
    assert(h.absent_ok());
}

impl Hull {
    /// The point reached from `i` by following `next` for `steps` steps.
    pub open spec fn walk_next(self, i: int, steps: nat) -> int
        decreases steps,
    {
        if steps == 0 {
            i
        } else {
            self.next_of(self.walk_next(i, (steps - 1) as nat))
        }
    }

    /// The point reached from `i` by following `prev` for `steps` steps.
    pub open spec fn walk_prev(self, i: int, steps: nat) -> int
        decreases steps,
    {
        if steps == 0 {
            i
        } else {
            self.prev_of(self.walk_prev(i, (steps - 1) as nat))
        }
    }

    /// Following `next` moves forward along the ring, wrapping once.
    proof fn lemma_walk_next_pos(self, k0: int, steps: nat)
        requires
            self.well_formed(),
            0 <= k0 < self.ring@.len(),
            steps <= self.ring@.len(),
        ensures
            self.walk_next(self.ring@[k0], steps) == self.ring@[
                if k0 + steps < self.ring@.len() as int {
                    k0 + steps
                } else {
                    k0 + steps - self.ring@.len() as int
                }
            ],
        decreases steps,
    {
        let r = self.ring@;
        let n = r.len() as int;
        if steps > 0 {
            self.lemma_walk_next_pos(k0, (steps - 1) as nat);
            let kprev = if k0 + steps - 1 < n { k0 + steps - 1 } else { k0 + steps - 1 - n };
            assert(self.walk_next(r[k0], (steps - 1) as nat) == r[kprev]);
            assert((#[trigger] self.data@[r[kprev]].next) as int
                == r[if kprev + 1 == n { 0int } else { kprev + 1 }]);
        }
    }

    /// Following `prev` moves backward along the ring, wrapping once.
    proof fn lemma_walk_prev_pos(self, k0: int, steps: nat)
        requires
            self.well_formed(),
            0 <= k0 < self.ring@.len(),
            steps <= self.ring@.len(),
        ensures
            self.walk_prev(self.ring@[k0], steps) == self.ring@[
                if k0 - steps >= 0 {
                    k0 - steps
                } else {
                    k0 - steps + self.ring@.len() as int
                }
            ],
        decreases steps,
    {
        let r = self.ring@;
        let n = r.len() as int;
        if steps > 0 {
            self.lemma_walk_prev_pos(k0, (steps - 1) as nat);
            let kprev = if k0 - (steps - 1) >= 0 { k0 - (steps - 1) } else { k0 - (steps - 1) + n };
            assert(self.walk_prev(r[k0], (steps - 1) as nat) == r[kprev]);
            assert((#[trigger] self.data@[r[kprev]].prev) as int
                == r[if kprev == 0 { n - 1 } else { kprev - 1 }]);
        }
    }

    /// Ring integrity: from any member, following `next` visits every
    /// member exactly once and returns to the start after exactly
    /// `member_count` steps, and following `prev` retraces the walk.
    #[verifier::spinoff_prover]
    pub proof fn lemma_ring_integrity(self, p: int)
        requires
            self.well_formed(),
            self.is_member(p),
        ensures
            self.walk_next(p, self.member_count()) == p,
            self.walk_prev(p, self.member_count()) == p,
            forall|s: nat| 0 < s < self.member_count() ==> #[trigger] self.walk_next(p, s) != p,
            forall|s: nat| s < self.member_count()
                ==> self.is_member(#[trigger] self.walk_next(p, s)),
            forall|q: int| #[trigger] self.is_member(q)
                ==> exists|s: nat| s < self.member_count() && self.walk_next(p, s) == q,
            forall|s: nat| s <= self.member_count()
                ==> #[trigger] self.walk_prev(self.walk_next(p, s), s) == p,
    {
        let r = self.ring@;
        let n = r.len() as int;
        let k0 = self.ring_position(p);
        self.lemma_walk_next_pos(k0, n as nat);
        self.lemma_walk_prev_pos(k0, n as nat);
        assert forall|s: nat| 0 < s < self.member_count()
            implies #[trigger] self.walk_next(p, s) != p by {
            self.lemma_walk_next_pos(k0, s);
            let ks = if k0 + s < n { k0 + s as int } else { k0 + s - n };
            self.lemma_positions_distinct_all(ks, k0);
        }
        assert forall|s: nat| s < self.member_count()
            implies self.is_member(#[trigger] self.walk_next(p, s)) by {
            self.lemma_walk_next_pos(k0, s);
        }
        assert forall|q: int| #[trigger] self.is_member(q)
            implies exists|s: nat| s < self.member_count() && self.walk_next(p, s) == q by {
            let kq = self.ring_position(q);
            let s = if kq >= k0 { (kq - k0) as nat } else { (kq - k0 + n) as nat };
            self.lemma_walk_next_pos(k0, s);
            assert(self.walk_next(p, s) == q);
        }
        assert forall|s: nat| s <= self.member_count()
            implies #[trigger] self.walk_prev(self.walk_next(p, s), s) == p by {
            self.lemma_walk_next_pos(k0, s);
            let ks = if k0 + s < n { k0 + s as int } else { k0 + s - n };
            self.lemma_walk_prev_pos(ks, s);
        }
    }

    /// Angular order: along the ring the angles strictly increase, except
    /// exactly once at the wrap from the greatest angle back to the least.
    pub proof fn lemma_angular_order(self)
        requires
            self.well_formed(),
            self.member_count() >= 2,
        ensures
            forall|k: int| 0 <= k < self.member_count()
                ==> self.next_of(#[trigger] self.ring()[k]) == self.ring()[
                    if k + 1 == self.member_count() as int { 0int } else { k + 1 }
                ],
            forall|k: int| 0 <= k < self.member_count() as int - 1
                ==> self.angle_of(#[trigger] self.ring()[k]) < self.angle_of(self.ring()[k + 1]),
            self.angle_of(self.ring()[self.member_count() as int - 1])
                > self.angle_of(self.ring()[0]),
    {
        assert forall|k: int| 0 <= k < self.member_count()
            implies self.next_of(#[trigger] self.ring()[k]) == self.ring()[
                if k + 1 == self.member_count() as int { 0int } else { k + 1 }
            ] by {
            assert((#[trigger] self.data@[self.ring@[k]].next) as int == self.ring@[
                if k + 1 == self.ring@.len() as int { 0int } else { k + 1 }
            ]);
        }
    }

    /// Bucket consistency: every member's bucket is occupied, and the
    /// bucket's head reaches the member by following `next` without leaving
    /// the bucket.
    #[verifier::spinoff_prover]
    pub proof fn lemma_bucket_consistency(self, p: int)
        requires
            self.well_formed(),
            self.is_member(p),
        ensures
            self.bucket_head(self.bucket_of(p)) != EMPTY as int,
            exists|s: nat|
                s < self.member_count() && #[trigger] self.walk_next(
                    self.bucket_head(self.bucket_of(p)),
                    s,
                ) == p && (forall|i: nat| i <= s
                    ==> self.bucket_of(#[trigger] self.walk_next(
                        self.bucket_head(self.bucket_of(p)),
                        i,
                    )) == self.bucket_of(p)),
    {
        let r = self.ring@;
        let n = r.len() as int;
        let kp = self.ring_position(p);
        let lo = self.bucket_run_start(kp);
        let b = self.bucket_of(p);
        assert(self.buckets@[b] as int == r[lo]);
        assert(self.bucket_head(b) == r[lo]);
        let s = (kp - lo) as nat;
        assert forall|i: nat| i <= s
            implies self.bucket_of(#[trigger] self.walk_next(self.bucket_head(b), i)) == b by {
            self.lemma_walk_next_pos(lo, i);
            assert(self.walk_next(self.bucket_head(b), i) == r[lo + i]);
            assert(self.bucket_of(r[lo + i]) == b);
        }
        self.lemma_walk_next_pos(lo, s);
        assert(self.walk_next(self.bucket_head(b), s) == p);
    }

    /// The stored edges play no part in locating a point: two well-formed
    /// hulls over the same ring and angles answer `get` identically.
    pub proof fn lemma_edges_do_not_affect_get(self, other: Hull)
        requires
            self.well_formed(),
            other.well_formed(),
            other.ring() == self.ring(),
            other.len() == self.len(),
            forall|i: int| 0 <= i < self.len()
                ==> #[trigger] other.angle_of(i) == self.angle_of(i),
        ensures
            forall|a: u64| #[trigger] other.get_result(a) == self.get_result(a),
    {
        assert(other.member_angles() =~= self.member_angles()) by {
            assert forall|k: int| 0 <= k < self.ring@.len()
                implies other.member_angles()[k] == self.member_angles()[k] by {
                assert(0 <= self.ring@[k] < self.data@.len());
            }
        }
    }
}

/// The ring and the angles determine everything else: two well-formed hulls
/// that agree on them carry identical links and bucket tables.
#[verifier::spinoff_prover]
proof fn lemma_state_determined(ha: Hull, hb: Hull)
    requires
        ha.well_formed(),
        hb.well_formed(),
        hb.ring@ == ha.ring@,
        hb.data@.len() == ha.data@.len(),
        forall|i: int| 0 <= i < ha.data@.len()
            ==> #[trigger] hb.data@[i].angle == ha.data@[i].angle,
    ensures
        forall|i: int| 0 <= i < ha.data@.len()
            ==> #[trigger] hb.data@[i].next == ha.data@[i].next
                && hb.data@[i].prev == ha.data@[i].prev,
        forall|b: int| 0 <= b < BUCKET_COUNT
            ==> #[trigger] hb.buckets@[b] == ha.buckets@[b],
{
    let r = ha.ring@;
    let n = r.len() as int;
    assert forall|x: int| 0 <= x < ha.data@.len()
        implies #[trigger] hb.bucket_of(x) == ha.bucket_of(x) by {
        assert(hb.data@[x].angle == ha.data@[x].angle);
    }
    assert forall|i: int| 0 <= i < ha.data@.len()
        implies #[trigger] hb.data@[i].next == ha.data@[i].next
            && hb.data@[i].prev == ha.data@[i].prev by {
        if r.contains(i) {
            let k = ha.ring_position(i);
            assert((#[trigger] ha.data@[r[k]].next) as int
                == r[if k + 1 == n { 0int } else { k + 1 }]);
            assert((#[trigger] hb.data@[r[k]].next) as int
                == r[if k + 1 == n { 0int } else { k + 1 }]);
            assert((#[trigger] ha.data@[r[k]].prev) as int
                == r[if k == 0 { n - 1 } else { k - 1 }]);
            assert((#[trigger] hb.data@[r[k]].prev) as int
                == r[if k == 0 { n - 1 } else { k - 1 }]);
        } else {
            lemma_absent_at(ha, i);
            lemma_absent_at(hb, i);
        }
    }
    assert forall|b: int| 0 <= b < BUCKET_COUNT
        implies #[trigger] hb.buckets@[b] == ha.buckets@[b] by {
        if ha.buckets@[b] != EMPTY {
            let kh = ha.bucket_head_position(b);
            assert(hb.run_start(kh)) by {
                if kh > 0 {
                    assert(hb.bucket_of(r[kh - 1]) == ha.bucket_of(r[kh - 1]));
                }
            }
            assert((#[trigger] hb.buckets@[hb.bucket_of(r[kh])]) as int == r[kh]);
            assert(hb.bucket_of(r[kh]) == b);
        } else {
            if hb.buckets@[b] != EMPTY {
                let kh = hb.bucket_head_position(b);
                let lo = ha.bucket_run_start(kh);
                assert(ha.bucket_of(r[kh]) == hb.bucket_of(r[kh]));
                assert(ha.buckets@[ha.bucket_of(r[kh])] as int == r[lo]);
                assert(ha.buckets@[b] as int == r[lo]);
                assert(false);
            }
        }
    }
}

impl Hull {
    /// Round-trip membership: inserting a fresh point and erasing it again
    /// restores the ring, the links and the bucket table exactly; only the
    /// erased point's stored edge keeps the inserted value.
    #[verifier::spinoff_prover]
    pub proof fn lemma_insert_erase_round_trip(self, mid: Hull, end: Hull, p: int, e: usize)
        requires
            self.well_formed(),
            0 <= p < self.len(),
            self.member_count() > 0,
            !self.is_member(p),
            self.angle_fresh(self.angle_of(p)),
            // what `insert` guarantees of its result
            mid.well_formed(),
            mid.ring() == self.ring().insert(self.angle_rank(self.angle_of(p)), p),
            mid.len() == self.len(),
            forall|i: int| 0 <= i < self.len()
                ==> #[trigger] mid.angle_of(i) == self.angle_of(i),
            mid.edge_of(p) == e,
            forall|i: int| 0 <= i < self.len() && i != p
                ==> #[trigger] mid.edge_of(i) == self.edge_of(i),
            // what `erase` guarantees of its result
            end.well_formed(),
            end.ring() == mid.ring().remove(mid.position_of(p)),
            end.len() == mid.len(),
            forall|i: int| 0 <= i < mid.len()
                ==> #[trigger] end.angle_of(i) == mid.angle_of(i),
            forall|i: int| 0 <= i < mid.len()
                ==> #[trigger] end.edge_of(i) == mid.edge_of(i),
        ensures
            end.ring() == self.ring(),
            forall|i: int| 0 <= i < self.len()
                ==> #[trigger] end.angle_of(i) == self.angle_of(i),
            forall|i: int| 0 <= i < self.len()
                ==> #[trigger] end.next_of(i) == self.next_of(i)
                    && end.prev_of(i) == self.prev_of(i),
            forall|b: int| 0 <= b < BUCKET_COUNT
                ==> #[trigger] end.bucket_head(b) == self.bucket_head(b),
            end.edge_of(p) == e,
            forall|i: int| 0 <= i < self.len() && i != p
                ==> #[trigger] end.edge_of(i) == self.edge_of(i),
    {
        let r = self.ring@;
        let n = r.len() as int;
        let a = self.data@[p].angle;
        let k = self.angle_rank(a);
        self.lemma_angle_rank_properties(a);
        r.insert_ensures(k, p);
        let r1 = mid.ring@;
        assert(r1[k] == p);
        let kp = mid.ring_position(p);
        assert(mid.position_of(p) == kp);
        mid.lemma_positions_distinct(kp, k);
        assert(kp == k);
        r1.remove_ensures(k);
        assert(end.ring@ =~= r) by {
            assert forall|i: int| 0 <= i < n implies end.ring@[i] == r[i] by {
                if i < k {
                    assert(r1.remove(k)[i] == r1[i]);
                    assert(r1[i] == r[i]);
                } else {
                    assert(r1.remove(k)[i] == r1[i + 1]);
                    assert(r1[i + 1] == r[i]);
                }
            }
        }
        assert forall|i: int| 0 <= i < self.data@.len()
            implies (#[trigger] end.data@[i].angle) == self.data@[i].angle by {
            assert(end.angle_of(i) == mid.angle_of(i));
            assert(mid.angle_of(i) == self.angle_of(i));
        }
        lemma_state_determined(self, end);
    }
}

/// Well-formedness reads only the angles, the links, the bucket table and the
/// ring; a hull that agrees with a well-formed one on those parts is itself
/// well-formed.
proof fn lemma_wf_from_parts(h1: Hull, h2: Hull)
    requires
        h1.well_formed(),
        h2.data@.len() == h1.data@.len(),
        h2.buckets@ == h1.buckets@,
        h2.ring@ == h1.ring@,
        forall|i: int| 0 <= i < h1.data@.len()
            ==> (#[trigger] h2.data@[i]).angle == h1.data@[i].angle
                && h2.data@[i].next == h1.data@[i].next
                && h2.data@[i].prev == h1.data@[i].prev,
    ensures
        h2.well_formed(),
{
    assert forall|k: int| 0 <= k < h2.ring@.len() && h2.run_start(k)
        implies (#[trigger] h2.buckets@[h2.bucket_of(h2.ring@[k])]) as int == h2.ring@[k] by {
        assert(h2.bucket_of(h2.ring@[k]) == h1.bucket_of(h1.ring@[k]));
        if k > 0 {
            assert(h2.bucket_of(h2.ring@[k - 1]) == h1.bucket_of(h1.ring@[k - 1]));
        }
    }
    assert forall|b: int| 0 <= b < BUCKET_COUNT implies ((#[trigger] h2.buckets@[b]) == EMPTY
        || (h2.ring@.contains(h2.buckets@[b] as int)
            && h2.bucket_of(h2.buckets@[b] as int) == b)) by {
        if h2.buckets@[b] != EMPTY {
            assert(h1.ring@.contains(h1.buckets@[b] as int));
            assert(h2.bucket_of(h2.buckets@[b] as int) == h1.bucket_of(h1.buckets@[b] as int));
        }
    }
}

} // verus!

