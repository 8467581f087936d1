//! An ordered map backed by a skip list: a multi-level linked structure that
//! gives expected-logarithmic search and insertion without rebalancing, in the
//! style of the list used by LevelDB's memtable.
//!
//! Nodes live in a growable arena and refer to each other by index, so the
//! multi-level node graph needs no raw pointers: a slot vacated by removal is
//! simply invalidated. Every node carries between 1 and `MAX_HEIGHT` forward
//! links. The level-0 links thread every live node in strictly ascending key
//! order; the links above level 0 are shortcuts that always lead strictly
//! forward along that order, to a node tall enough to continue at the same
//! level. (Removal may prune shortcuts, so an upper level is not necessarily
//! the full sub-list of tall nodes; searches only rely on the level-0 chain
//! being complete and on shortcuts never jumping backwards.)

use crate::keys::{key_equiv, key_lt, KeyOrdering, TotalOrder};
use rand::Rng;
use vstd::prelude::*;

verus! {

/// The maximum number of levels a node may occupy.
const MAX_HEIGHT: usize = 12;

#[verifier::external_type_specification]
#[verifier::external_body]
pub struct ExThreadRng(rand::rngs::ThreadRng);

/// Relies on rand's `thread_rng`: a handle to the thread-local generator.
#[verifier::external_body]
fn fresh_rng() -> rand::rngs::ThreadRng {
    rand::thread_rng()
}

/// Relies on rand's `Rng::gen::<u32>`: one uniformly distributed 32-bit draw.
/// Nothing can be promised of a random value.
#[verifier::external_body]
fn draw_u32(rng: &mut rand::rngs::ThreadRng) -> u32 {
    rng.gen::<u32>()
}

/// Samples a node height from the geometric distribution with promotion
/// probability 1/4: every pair of bits of the uniform draw grants one extra
/// level while it comes up zero, so each additional level is four times less
/// likely than the previous one, capped at `MAX_HEIGHT`.
fn height_from_draw(draw: u32) -> (h: usize)
    ensures
        1 <= h <= MAX_HEIGHT,
{
    let mut h: usize = 1;
    let mut bits: u32 = draw;
    while h < MAX_HEIGHT && bits % 4 == 0
        invariant
            1 <= h <= MAX_HEIGHT,
        decreases MAX_HEIGHT - h,
    {
        h += 1;
        bits = bits / 4;
    }
    h
}

/// The number of entries in `s` whose key sorts strictly before `k`.
pub open spec fn count_lt<K: TotalOrder, V>(s: Seq<(K, V)>, k: &K) -> int
    decreases s.len(),
{
    if s.len() == 0 {
        0
    } else {
        count_lt(s.drop_last(), k) + if key_lt(&s.last().0, k) {
            1int
        } else {
            0int
        }
    }
}

/// The count of strictly-smaller entries never exceeds the length.
pub proof fn lemma_count_lt_bounds<K: TotalOrder, V>(s: Seq<(K, V)>, k: &K)
    ensures
        0 <= count_lt(s, k) <= s.len(),
    decreases s.len(),
{
    if s.len() > 0 {
        lemma_count_lt_bounds(s.drop_last(), k);
    }
}

/// In a sequence that `k` splits into a strictly-smaller prefix of length `ip`
/// and a remainder of entries not strictly smaller, exactly `ip` entries sort
/// before `k`.
pub proof fn lemma_count_lt_split<K: TotalOrder, V>(s: Seq<(K, V)>, k: &K, ip: int)
    requires
        0 <= ip <= s.len(),
        forall|p: int| 0 <= p < ip ==> key_lt(&s[p].0, k),
        forall|p: int| ip <= p < s.len() ==> !key_lt(&s[p].0, k),
    ensures
        count_lt(s, k) == ip,
    decreases s.len(),
{
    if s.len() > 0 {
        assert(forall|p: int| 0 <= p < s.len() - 1 ==> s.drop_last()[p] == s[p]);
        if ip == s.len() {
            lemma_count_lt_split(s.drop_last(), k, ip - 1);
        } else {
            lemma_count_lt_split(s.drop_last(), k, ip);
        }
    }
}

/// The sub-sequence of entries whose keys lie in the half-open window
/// `[lo, hi)`, in their original order.
pub open spec fn window<K: TotalOrder, V>(s: Seq<(K, V)>, lo: &K, hi: &K) -> Seq<(K, V)>
    decreases s.len(),
{
    if s.len() == 0 {
        s
    } else {
        let rest = window(s.drop_last(), lo, hi);
        if lo.le(&s.last().0) && key_lt(&s.last().0, hi) {
            rest.push(s.last())
        } else {
            rest
        }
    }
}

/// An owned key/value pair.
pub struct Entry<K, V> {
    key: K,
    value: V,
}

impl<K, V> View for Entry<K, V> {
    type V = (K, V);

    closed spec fn view(&self) -> (K, V) {
        (self.key, self.value)
    }
}

impl<K, V> Entry<K, V> {
    /// Splits the entry into its key and value.
    pub fn into_tuple(self) -> (r: (K, V))
        ensures
            r == self@,
    {
        (self.key, self.value)
    }
}

/// One node of the arena: an entry plus one forward link per occupied level.
struct SkipNode<K, V> {
    key: K,
    value: V,
    links: Vec<Option<usize>>,
}

/// An ordered map with randomized structural balancing.
///
/// The abstract value is the sequence of entries in ascending key order; see
/// [`SkipList::view`].
pub struct SkipList<K, V> {
    /// Node arena. A slot vacated by removal stays `None`.
    nodes: Vec<Option<SkipNode<K, V>>>,
    /// The sentinel's forward links, one per level.
    head_links: Vec<Option<usize>>,
    /// Number of live entries.
    len: usize,
    /// Source of structural randomness for sampling node heights.
    rng: rand::rngs::ThreadRng,
    /// Arena indices of the live nodes, in level-0 (ascending key) order.
    chain: Ghost<Seq<usize>>,
}

impl<K: TotalOrder, V> SkipList<K, V> {
    /// The node sitting at chain position `p`.
    spec fn node_at(&self, p: int) -> SkipNode<K, V> {
        self.nodes@[self.chain@[p] as int]->Some_0
    }

    /// The key at chain position `p`.
    spec fn key_at(&self, p: int) -> K {
        self.node_at(p).key
    }

    /// The value at chain position `p`.
    spec fn value_at(&self, p: int) -> V {
        self.node_at(p).value
    }

    /// The heights of the live nodes, in chain order.
    spec fn heights(&self) -> Seq<int> {
        Seq::new(self.chain@.len(), |p: int| self.node_at(p).links@.len() as int)
    }

    /// The forward link that leads to chain position `q`: the arena index of
    /// the node there, or `None` past the end of the chain.
    spec fn pos_to_link(&self, q: int) -> Option<usize> {
        if q == self.chain@.len() {
            None
        } else {
            Some(self.chain@[q])
        }
    }

    /// The level-`l` forward link owned by chain position `p`, where `-1`
    /// stands for the sentinel.
    spec fn link_of(&self, p: int, l: int) -> Option<usize> {
        if p == -1 {
            self.head_links@[l]
        } else {
            self.node_at(p).links@[l]
        }
    }

    /// The chain position holding arena index `i`.
    spec fn pos_of_index(&self, i: usize) -> int {
        choose|q: int| 0 <= q < self.chain@.len() && self.chain@[q] == i
    }

    /// A sound shortcut: the level-`l` link owned by position `p` is either
    /// absent or leads strictly forward to a live node tall enough for `l`.
    spec fn link_ok(&self, p: int, l: int) -> bool {
        match self.link_of(p, l) {
            None => true,
            Some(i) => {
                let q = self.pos_of_index(i);
                &&& 0 <= q < self.chain@.len()
                &&& self.chain@[q] == i
                &&& p < q
                &&& self.heights()[q] > l
            },
        }
    }

    /// Structural well-formedness: chain positions hold distinct live arena
    /// slots, keys ascend strictly along the chain, the level-0 links thread
    /// the whole chain exactly, and every upper link is a sound shortcut.
    pub closed spec fn wf(&self) -> bool {
        &&& self.head_links@.len() == MAX_HEIGHT
        &&& self.len == self.chain@.len()
        &&& self.chain@.len() <= self.nodes@.len()
        &&& forall|p: int|
            0 <= p < self.chain@.len() ==> (#[trigger] self.chain@[p]) < self.nodes@.len()
                && self.nodes@[self.chain@[p] as int] is Some
        &&& forall|p: int, q: int|
            0 <= p < q < self.chain@.len() ==> self.chain@[p] != self.chain@[q]
        &&& forall|p: int|
            0 <= p < self.chain@.len() ==> 1 <= (#[trigger] self.heights()[p]) <= MAX_HEIGHT
        &&& forall|p: int, q: int|
            #![trigger self.key_at(p), self.key_at(q)]
            0 <= p < q < self.chain@.len() ==> key_lt(&self.key_at(p), &self.key_at(q))
        &&& self.head_links@[0] == self.pos_to_link(0)
        &&& forall|p: int|
            0 <= p < self.chain@.len() ==> (#[trigger] self.node_at(p).links@[0])
                == self.pos_to_link(p + 1)
        &&& forall|p: int, l: int|
            -1 <= p < self.chain@.len() && 0 <= l < (if p == -1 {
                MAX_HEIGHT as int
            } else {
                self.heights()[p]
            }) ==> #[trigger] self.link_ok(p, l)
    }

    /// The entries in ascending key order.
    pub closed spec fn view(&self) -> Seq<(K, V)> {
        Seq::new(self.chain@.len(), |p: int| (self.key_at(p), self.value_at(p)))
    }

    /// Whether some entry's key is equivalent to `k`.
    pub open spec fn contains_key(&self, k: &K) -> bool {
        exists|p: int| 0 <= p < self@.len() && key_equiv(&self@[p].0, k)
    }

    /// The position of the entry whose key is equivalent to `k`.
    pub open spec fn index_of_key(&self, k: &K) -> int {
        choose|p: int| 0 <= p < self@.len() && key_equiv(&self@[p].0, k)
    }

    /// The chain position holding a given arena index is unique.
    proof fn lemma_pos_of_index(&self, q: int)
        requires
            forall|p1: int, q1: int|
                0 <= p1 < q1 < self.chain@.len() ==> self.chain@[p1] != self.chain@[q1],
            0 <= q < self.chain@.len(),
        ensures
            self.pos_of_index(self.chain@[q]) == q,
    {
        let i = self.chain@[q];
        assert(0 <= q < self.chain@.len() && self.chain@[q] == i);
        let q2 = self.pos_of_index(i);
        assert(0 <= q2 < self.chain@.len() && self.chain@[q2] == i);
    }

    /// The cursor of a descent: either the sentinel (position `-1`) or the
    /// live node at chain position `p`, tall enough to reach `level`.
    spec fn cursor_ok(&self, cur: Option<usize>, p: int, level: int) -> bool {
        match cur {
            None => p == -1,
            Some(i) => 0 <= p < self.chain@.len() && i == self.chain@[p] && self.heights()[p]
                > level,
        }
    }

    /// The search for `key` can stop at cursor position `p` of `level`: the
    /// level-`l` link there either ends or jumps over `key`.
    spec fn blocked(&self, p: int, level: int, key: &K) -> bool {
        match self.link_of(p, level) {
            None => true,
            Some(i) => key_lt(key, &self.key_at(self.pos_of_index(i))),
        }
    }

    /// At most one chain position can hold a key equivalent to `k`.
    proof fn lemma_equiv_unique(&self, k: &K, p1: int, p2: int)
        requires
            self.wf(),
            0 <= p1 < self@.len(),
            0 <= p2 < self@.len(),
            key_equiv(&self.key_at(p1), k),
            key_equiv(&self.key_at(p2), k),
        ensures
            p1 == p2,
    {
        if p1 < p2 {
            assert(key_lt(&self.key_at(p1), &self.key_at(p2)));
            K::le_transitive(&self.key_at(p2), k, &self.key_at(p1));
        }
        if p2 < p1 {
            assert(key_lt(&self.key_at(p2), &self.key_at(p1)));
            K::le_transitive(&self.key_at(p1), k, &self.key_at(p2));
        }
    }

    /// If the key at position `p` sorts no later than `k`, is not equivalent to
    /// it, and the next key already sorts strictly after `k`, then no position
    /// holds a key equivalent to `k`.
    proof fn lemma_absent(&self, k: &K, p: int)
        requires
            self.wf(),
            -1 <= p < self@.len(),
            p >= 0 ==> self.key_at(p).le(k),
            p >= 0 ==> !key_equiv(&self.key_at(p), k),
            p + 1 < self@.len() ==> key_lt(k, &self.key_at(p + 1)),
        ensures
            !self.contains_key(k),
    {
        assert forall|r: int| 0 <= r < self@.len() implies !key_equiv(&self@[r].0, k) by {
            if key_equiv(&self@[r].0, k) {
                assert(key_equiv(&self.key_at(r), k));
                if r < p {
                    assert(key_lt(&self.key_at(r), &self.key_at(p)));
                    K::le_transitive(&self.key_at(p), k, &self.key_at(r));
                }
                if r > p + 1 {
                    assert(key_lt(&self.key_at(p + 1), &self.key_at(r)));
                    K::le_transitive(&self.key_at(p + 1), &self.key_at(r), k);
                }
                assert(false);
            }
        }
    }

    /// Single-level traversal: starting from `cur`, advance along the links of
    /// `level` while the next node's key sorts no later than `key`. Returns the
    /// rightmost node reached this way (or the start), whether its key is
    /// equivalent to `key`, and its chain position.
    fn find(&self, cur: Option<usize>, level: usize, key: &K, pos: Ghost<int>) -> (res: (
        Option<usize>,
        bool,
        Ghost<int>,
    ))
        requires
            self.wf(),
            level < MAX_HEIGHT,
            self.cursor_ok(cur, pos@, level as int),
            pos@ >= 0 ==> self.key_at(pos@).le(key),
        ensures
            self.cursor_ok(res.0, res.2@, level as int),
            pos@ <= res.2@,
            res.2@ >= 0 ==> self.key_at(res.2@).le(key),
            self.blocked(res.2@, level as int, key),
            res.1 == (res.2@ >= 0 && key_equiv(&self.key_at(res.2@), key)),
    {
        let mut cur = cur;
        let ghost mut p: int = pos@;
        loop
            invariant
                self.wf(),
                level < MAX_HEIGHT,
                self.cursor_ok(cur, p, level as int),
                pos@ <= p,
                p >= 0 ==> self.key_at(p).le(key),
            ensures
                self.cursor_ok(cur, p, level as int),
                pos@ <= p,
                p >= 0 ==> self.key_at(p).le(key),
                self.blocked(p, level as int, key),
            decreases self@.len() - p,
        {
            proof {
                assert(self.link_ok(p, level as int));
            }
            let next_link: Option<usize> = match cur {
                None => self.head_links[level],
                Some(i) => {
                    let node = self.nodes[i].as_ref().unwrap();
                    node.links[level]
                },
            };
            proof {
                assert(next_link == self.link_of(p, level as int));
            }
            match next_link {
                None => {
                    break ;
                },
                Some(j) => {
                    let ghost np = self.pos_of_index(j);
                    let node = self.nodes[j].as_ref().unwrap();
                    match node.key.compare(key) {
                        KeyOrdering::Greater => {
                            break ;
                        },
                        _ => {
                            cur = Some(j);
                            proof {
                                p = np;
                            }
                        },
                    }
                },
            }
        }
        let found: bool = match cur {
            None => false,
            Some(i) => {
                let node = self.nodes[i].as_ref().unwrap();
                match node.key.compare(key) {
                    KeyOrdering::Equal => true,
                    _ => false,
                }
            },
        };
        (cur, found, Ghost(p))
    }

    /// Gets a reference to the value under the given key.
    pub fn get(&self, key: &K) -> (r: Option<&V>)
        requires
            self.wf(),
        ensures
            match r {
                Some(v) => self.contains_key(key) && *v == self@[self.index_of_key(key)].1,
                None => !self.contains_key(key),
            },
    {
        let mut cur: Option<usize> = None;
        let ghost mut p: int = -1;
        let mut level: usize = MAX_HEIGHT;
        while level > 0
            invariant
                self.wf(),
                level <= MAX_HEIGHT,
                self.cursor_ok(cur, p, level as int - 1),
                p >= 0 ==> self.key_at(p).le(key),
                level < MAX_HEIGHT ==> !(p >= 0 && key_equiv(&self.key_at(p), key)),
                level < MAX_HEIGHT ==> self.blocked(p, level as int, key),
            decreases level,
        {
            level -= 1;
            let (c2, found, q) = self.find(cur, level, key, Ghost(p));
            if found {
                let i = c2.unwrap();
                let node = self.nodes[i].as_ref().unwrap();
                proof {
                    self.lemma_found_index(key, q@);
                }
                return Some(&node.value);
            }
            cur = c2;
            proof {
                p = q@;
            }
        }
        proof {
            self.lemma_blocked_absent(key, p);
        }
        None
    }

    /// A cursor whose key is equivalent to `key` sits exactly at
    /// `index_of_key`.
    proof fn lemma_found_index(&self, key: &K, q: int)
        requires
            self.wf(),
            0 <= q < self@.len(),
            key_equiv(&self.key_at(q), key),
        ensures
            self.contains_key(key),
            self.index_of_key(key) == q,
            self@[q].0 == self.key_at(q),
            self@[q].1 == self.value_at(q),
    {
        assert(0 <= q < self@.len() && key_equiv(&self@[q].0, key));
        assert(self.contains_key(key));
        let p0 = choose|p0: int| 0 <= p0 < self@.len() && key_equiv(&self@[p0].0, key);
        assert(0 <= p0 < self@.len() && key_equiv(&self@[p0].0, key));
        self.lemma_equiv_unique(key, q, self.index_of_key(key));
    }

    /// After a level-0 stop that did not find `key`, the key is absent.
    proof fn lemma_blocked_absent(&self, key: &K, p: int)
        requires
            self.wf(),
            -1 <= p < self@.len(),
            p >= 0 ==> self.key_at(p).le(key),
            !(p >= 0 && key_equiv(&self.key_at(p), key)),
            self.blocked(p, 0, key),
        ensures
            !self.contains_key(key),
    {
        if p + 1 < self@.len() {
            if p == -1 {
                assert(self.link_of(p, 0) == self.pos_to_link(0));
                self.lemma_pos_of_index(0);
            } else {
                assert(self.link_of(p, 0) == self.pos_to_link(p + 1));
                self.lemma_pos_of_index(p + 1);
            }
            assert(key_lt(key, &self.key_at(p + 1)));
        }
        self.lemma_absent(key, p);
    }

    /// Well-formedness and the abstract sequence do not depend on the
    /// generator state: they carry over between two values that agree on every
    /// structural field.
    proof fn lemma_wf_unchanged(a: &Self, b: &Self)
        requires
            a.wf(),
            b.nodes == a.nodes,
            b.head_links == a.head_links,
            b.len == a.len,
            b.chain == a.chain,
        ensures
            b.wf(),
            b@ == a@,
            b.heights() == a.heights(),
    {
        assert(b.heights() =~= a.heights());
        assert(b@ =~= a@);
        assert forall|p: int, q: int|
            #![trigger b.key_at(p), b.key_at(q)]
            0 <= p < q < b.chain@.len() implies key_lt(&b.key_at(p), &b.key_at(q)) by {
            assert(key_lt(&a.key_at(p), &a.key_at(q)));
        }
        assert forall|p: int|
            0 <= p < b.chain@.len() implies (#[trigger] b.node_at(p).links@[0]) == b.pos_to_link(
            p + 1,
        ) by {
            assert(a.node_at(p).links@[0] == a.pos_to_link(p + 1));
        }
        assert forall|p: int, l: int|
            -1 <= p < b.chain@.len() && 0 <= l < (if p == -1 {
                MAX_HEIGHT as int
            } else {
                b.heights()[p]
            }) implies #[trigger] b.link_ok(p, l) by {
            assert(a.link_ok(p, l));
            match a.link_of(p, l) {
                None => {},
                Some(i) => {
                    let q = a.pos_of_index(i);
                    b.lemma_pos_of_index(q);
                },
            }
        }
    }

    /// Relates the state after splicing a new node into every one of its
    /// levels to the state before: the result is well formed and its entries
    /// are the old ones with `(key, value)` inserted at the insertion point.
    proof fn lemma_splice_wf(
        s0: Self,
        s1: Self,
        key: K,
        value: V,
        cpos: Seq<int>,
        h_new: int,
        new_idx: usize,
        ip: int,
    )
        requires
            s0.wf(),
            1 <= h_new <= MAX_HEIGHT,
            new_idx == s0.nodes@.len(),
            cpos.len() == MAX_HEIGHT,
            forall|l: int| 0 <= l < MAX_HEIGHT ==> -1 <= #[trigger] cpos[l] < s0.chain@.len(),
            forall|l: int|
                0 <= l < MAX_HEIGHT ==> (cpos[l] >= 0 ==> s0.key_at(#[trigger] cpos[l]).le(&key)),
            forall|l: int|
                0 <= l < MAX_HEIGHT ==> (cpos[l] >= 0 ==> s0.heights()[#[trigger] cpos[l]] > l),
            forall|l: int| 0 <= l < MAX_HEIGHT ==> s0.blocked(#[trigger] cpos[l], l, &key),
            forall|l: int| 0 <= l < MAX_HEIGHT ==> #[trigger] cpos[l] <= cpos[0],
            !s0.contains_key(&key),
            ip == cpos[0] + 1,
            s1.head_links@.len() == MAX_HEIGHT,
            s1.len == s0.len + 1,
            s1.chain@ == s0.chain@.insert(ip, new_idx),
            s1.nodes@.len() == s0.nodes@.len() + 1,
            s1.nodes@[new_idx as int] is Some,
            s1.nodes@[new_idx as int]->Some_0.key == key,
            s1.nodes@[new_idx as int]->Some_0.value == value,
            s1.nodes@[new_idx as int]->Some_0.links@.len() == h_new,
            forall|l: int|
                0 <= l < h_new ==> s1.nodes@[new_idx as int]->Some_0.links@[l] == s0.link_of(
                    #[trigger] cpos[l],
                    l,
                ),
            forall|q: int|
                0 <= q < s0.chain@.len() ==> s1.nodes@[#[trigger] s0.chain@[q] as int] is Some,
            forall|q: int|
                0 <= q < s0.chain@.len() ==> {
                    let n1 = s1.nodes@[#[trigger] s0.chain@[q] as int]->Some_0;
                    &&& n1.key == s0.node_at(q).key
                    &&& n1.value == s0.node_at(q).value
                    &&& n1.links@.len() == s0.node_at(q).links@.len()
                },
            forall|q: int, l: int|
                0 <= q < s0.chain@.len() && 0 <= l < s0.heights()[q]
                    ==> s1.nodes@[s0.chain@[q] as int]->Some_0.links@[l] == (if l < h_new && cpos[l]
                    == q {
                    Some(new_idx)
                } else {
                    s0.node_at(q).links@[l]
                }),
            forall|l: int|
                0 <= l < MAX_HEIGHT ==> s1.head_links@[l] == (if l < h_new && cpos[l] == -1 {
                    Some(new_idx)
                } else {
                    s0.head_links@[l]
                }),
        ensures
            s1.wf(),
            s1@ =~= s0@.insert(ip, (key, value)),
            ip == count_lt(s0@, &key),
    {
        let c0 = s0.chain@;
        let c1 = s1.chain@;
        let len0 = c0.len() as int;
        c0.insert_ensures(ip, new_idx);

        // Where each chain position of the new state came from.
        assert(c1.len() == len0 + 1);
        assert(forall|p: int| 0 <= p < ip ==> #[trigger] c1[p] == c0[p]);
        assert(forall|p: int| ip <= p < len0 ==> #[trigger] c1[p + 1] == c0[p]);
        assert(c1[ip] == new_idx);
        assert(forall|p: int| 0 <= p < len0 ==> #[trigger] c0[p] < new_idx);

        // Node lookups in the new state.
        assert(forall|p: int|
            0 <= p < ip ==> #[trigger] s1.node_at(p).key == s0.node_at(p).key && s1.node_at(
                p,
            ).value == s0.node_at(p).value && s1.node_at(p).links@.len() == s0.node_at(
                p,
            ).links@.len());
        assert(forall|p: int|
            ip < p < c1.len() ==> #[trigger] s1.node_at(p).key == s0.node_at(p - 1).key
                && s1.node_at(p).value == s0.node_at(p - 1).value && s1.node_at(p).links@.len()
                == s0.node_at(p - 1).links@.len());
        assert(s1.node_at(ip).key == key && s1.node_at(ip).value == value && s1.node_at(
            ip,
        ).links@.len() == h_new);
        assert(forall|p: int|
            0 <= p < c1.len() ==> #[trigger] s1.heights()[p] == (if p < ip {
                s0.heights()[p]
            } else if p == ip {
                h_new
            } else {
                s0.heights()[p - 1]
            }));

        // Keys around the insertion point.
        assert forall|p: int| 0 <= p < ip implies key_lt(&s0.key_at(p), &key) by {
            assert(s0.key_at(cpos[0]).le(&key));
            if p < cpos[0] {
                assert(key_lt(&s0.key_at(p), &s0.key_at(cpos[0])));
                K::le_transitive(&s0.key_at(p), &s0.key_at(cpos[0]), &key);
            }
            assert(s0.key_at(p).le(&key));
            assert(!key_equiv(&s0@[p].0, &key));
        }
        assert forall|p: int| ip <= p < len0 implies key_lt(&key, &s0.key_at(p)) by {
            assert(s0.blocked(cpos[0], 0, &key));
            if cpos[0] == -1 {
                assert(s0.link_of(-1, 0) == s0.pos_to_link(0));
            } else {
                assert(s0.node_at(cpos[0]).links@[0] == s0.pos_to_link(ip));
            }
            assert(s0.link_of(cpos[0], 0) == s0.pos_to_link(ip));
            s0.lemma_pos_of_index(ip);
            assert(key_lt(&key, &s0.key_at(ip)));
            if p > ip {
                assert(key_lt(&s0.key_at(ip), &s0.key_at(p)));
                crate::keys::lemma_key_lt_transitive(&key, &s0.key_at(ip), &s0.key_at(p));
            }
        }

        // The new chain is strictly sorted.
        assert forall|p: int, q: int|
            #![trigger s1.key_at(p), s1.key_at(q)]
            0 <= p < q < c1.len() implies key_lt(&s1.key_at(p), &s1.key_at(q)) by {
            if p < ip && q < ip {
                assert(key_lt(&s0.key_at(p), &s0.key_at(q)));
            } else if p < ip && q == ip {
                assert(key_lt(&s0.key_at(p), &key));
            } else if p < ip && q > ip {
                assert(key_lt(&s0.key_at(p), &s0.key_at(q - 1)));
            } else if p == ip {
                assert(key_lt(&key, &s0.key_at(q - 1)));
            } else {
                assert(key_lt(&s0.key_at(p - 1), &s0.key_at(q - 1)));
            }
        }

        // Arena slots along the new chain are valid and distinct.
        assert(forall|p: int|
            0 <= p < c1.len() ==> (#[trigger] c1[p]) < s1.nodes@.len() && s1.nodes@[c1[p] as int]
                is Some);
        assert forall|p: int, q: int| 0 <= p < q < c1.len() implies c1[p] != c1[q] by {
            if q == ip {
                assert(c1[p] == c0[p] && c0[p] < new_idx);
            } else if p == ip {
                assert(c1[q] == c0[q - 1] && c0[q - 1] < new_idx);
            }
        }

        // The level-0 chain is threaded exactly.
        assert(s1.head_links@[0] == s1.pos_to_link(0)) by {
            if cpos[0] == -1 {
                assert(ip == 0);
            } else {
                assert(s0.head_links@[0] == s0.pos_to_link(0));
                assert(ip >= 1);
            }
        }
        assert forall|p: int| 0 <= p < c1.len() implies (#[trigger] s1.node_at(p).links@[0])
            == s1.pos_to_link(p + 1) by {
            assert(s1.heights()[p] >= 1);
            if p == ip {
                assert(s1.node_at(ip).links@[0] == s0.link_of(cpos[0], 0));
                if cpos[0] == -1 {
                    assert(s0.link_of(cpos[0], 0) == s0.pos_to_link(0));
                } else {
                    assert(s0.node_at(cpos[0]).links@[0] == s0.pos_to_link(ip));
                }
            } else if p < ip {
                assert(s1.node_at(p).links@[0] == (if 0 < h_new && cpos[0] == p {
                    Some(new_idx)
                } else {
                    s0.node_at(p).links@[0]
                }));
                if cpos[0] == p {
                    assert(p == ip - 1);
                } else {
                    assert(s0.node_at(p).links@[0] == s0.pos_to_link(p + 1));
                    assert(p + 1 < ip || p + 1 == ip);
                    if p + 1 == ip {
                        assert(cpos[0] == p || cpos[0] == -1 || cpos[0] < p || cpos[0] > p);
                        assert(cpos[0] == ip - 1);
                        assert(false);
                    }
                }
            } else {
                // old position p - 1, untouched at level 0
                assert(s1.node_at(p).links@[0] == (if 0 < h_new && cpos[0] == p - 1 {
                    Some(new_idx)
                } else {
                    s0.node_at(p - 1).links@[0]
                }));
                assert(cpos[0] == ip - 1 < p - 1 + 1);
                assert(cpos[0] != p - 1);
                assert(s0.node_at(p - 1).links@[0] == s0.pos_to_link(p));
            }
        }

        // Every upper link is still a sound shortcut.
        assert forall|p: int, l: int|
            -1 <= p < c1.len() && 0 <= l < (if p == -1 {
                MAX_HEIGHT as int
            } else {
                s1.heights()[p]
            }) implies #[trigger] s1.link_ok(p, l) by {
            if p == ip {
                // the new node: its link came from the blocking cursor
                assert(s1.link_of(p, l) == s0.link_of(cpos[l], l));
                assert(s0.link_ok(cpos[l], l));
                match s0.link_of(cpos[l], l) {
                    None => {},
                    Some(i) => {
                        let q = s0.pos_of_index(i);
                        assert(0 <= q < len0 && c0[q] == i && cpos[l] < q && s0.heights()[q] > l);
                        // the target's key lies beyond `key`, so its position is at least ip
                        assert(s0.blocked(cpos[l], l, &key));
                        assert(key_lt(&key, &s0.key_at(q)));
                        if q < ip {
                            assert(key_lt(&s0.key_at(q), &key));
                            assert(false);
                        }
                        assert(c1[q + 1] == i);
                        s1.lemma_pos_of_index(q + 1);
                        assert(s1.heights()[q + 1] > l);
                    },
                }
            } else {
                let op = if p < ip {
                    p
                } else {
                    p - 1
                };
                let lk = s1.link_of(p, l);
                if p == -1 {
                    assert(lk == (if l < h_new && cpos[l] == -1 {
                        Some(new_idx)
                    } else {
                        s0.head_links@[l]
                    }));
                } else {
                    assert(lk == s1.node_at(p).links@[l]);
                    assert(s1.heights()[p] == s0.heights()[op]);
                    assert(s1.node_at(p).links@[l] == (if l < h_new && cpos[l] == op {
                        Some(new_idx)
                    } else {
                        s0.node_at(op).links@[l]
                    }));
                }
                if l < h_new && cpos[l] == op && (p == -1 ==> op == -1) && (p >= 0 ==> op >= 0) {
                    // an updated predecessor now points at the new node
                    assert(lk == Some(new_idx));
                    assert(c1[ip] == new_idx);
                    s1.lemma_pos_of_index(ip);
                    assert(op <= cpos[0] && cpos[0] == ip - 1);
                    assert(p < ip);
                    assert(s1.heights()[ip] == h_new > l);
                } else {
                    // an untouched link shifts with its target
                    assert(lk == s0.link_of(op, l));
                    assert(s0.link_ok(op, l));
                    match s0.link_of(op, l) {
                        None => {},
                        Some(i) => {
                            let q = s0.pos_of_index(i);
                            assert(0 <= q < len0 && c0[q] == i && op < q && s0.heights()[q] > l);
                            let nq = if q < ip {
                                q
                            } else {
                                q + 1
                            };
                            assert(c1[nq] == i);
                            s1.lemma_pos_of_index(nq);
                            assert(s1.heights()[nq] > l);
                            assert(p < nq);
                        },
                    }
                }
            }
        }

        // The abstract sequence gained one entry at the insertion point.
        assert(s1@.len() == s0@.insert(ip, (key, value)).len());
        assert forall|p: int| 0 <= p < s1@.len() implies s1@[p] == s0@.insert(ip, (key, value))[p]
            by {
            s0@.insert_ensures(ip, (key, value));
            if p < ip {
                assert(s1@[p] == (s1.key_at(p), s1.value_at(p)));
            } else if p > ip {
                assert(s0@.insert(ip, (key, value))[p] == s0@[p - 1]);
            }
        }

        lemma_count_lt_split(s0@, &key, ip);
    }

    /// Puts a key/value pair into the list. If a key equivalent to `key` is
    /// already present, that entry is replaced; otherwise a new node is
    /// spliced in at the position that keeps the keys ascending.
    pub fn insert(&mut self, key: K, value: V)
        requires
            old(self).wf(),
        ensures
            final(self).wf(),
            old(self).contains_key(&key) ==> final(self)@ =~= old(self)@.update(
                old(self).index_of_key(&key),
                (key, value),
            ),
            !old(self).contains_key(&key) ==> final(self)@ =~= old(self)@.insert(
                count_lt(old(self)@, &key),
                (key, value),
            ),
    {
        let jump_height = height_from_draw(draw_u32(&mut self.rng));
        let ghost s0 = *self;
        proof {
            Self::lemma_wf_unchanged(old(self), &s0);
        }

        // Descend, recording the stopping cursor of every level.
        let mut cached: Vec<Option<usize>> = Vec::new();
        let mut l: usize = 0;
        while l < MAX_HEIGHT
            invariant
                l <= MAX_HEIGHT,
                cached@.len() == l,
            decreases MAX_HEIGHT - l,
        {
            cached.push(None);
            l += 1;
        }
        let ghost mut cpos: Seq<int> = Seq::new(MAX_HEIGHT as nat, |l: int| -1);

        let mut cur: Option<usize> = None;
        let ghost mut p: int = -1;
        let mut level: usize = MAX_HEIGHT;
        while level > 0
            invariant
                self.wf(),
                *self == s0,
                s0.wf(),
                old(self).wf(),
                s0@ == old(self)@,
                level <= MAX_HEIGHT,
                cached@.len() == MAX_HEIGHT,
                cpos.len() == MAX_HEIGHT,
                self.cursor_ok(cur, p, level as int - 1),
                p >= 0 ==> self.key_at(p).le(&key),
                forall|l2: int|
                    level <= l2 < MAX_HEIGHT ==> {
                        &&& self.cursor_ok(#[trigger] cached@[l2], cpos[l2], l2)
                        &&& self.blocked(cpos[l2], l2, &key)
                        &&& (cpos[l2] >= 0 ==> self.key_at(cpos[l2]).le(&key))
                        &&& cpos[l2] <= p
                    },
                level < MAX_HEIGHT ==> cpos[level as int] == p,
                level < MAX_HEIGHT ==> !(p >= 0 && key_equiv(&self.key_at(p), &key)),
            decreases level,
        {
            level -= 1;
            let (c2, found, q) = self.find(cur, level, &key, Ghost(p));
            if found {
                // Replace the entry in place.
                let i = c2.unwrap();
                let ghost qq = q@;
                proof {
                    self.lemma_found_index(&key, qq);
                }
                let mut node = self.nodes[i].take().unwrap();
                node.key = key;
                node.value = value;
                self.nodes[i] = Some(node);
                proof {
                    assert(self.nodes@ =~= s0.nodes@.update(
                        s0.chain@[qq] as int,
                        self.nodes@[s0.chain@[qq] as int],
                    ));
                    self.lemma_replace_wf(s0, qq);
                    assert(old(self).contains_key(&key)) by {
                        assert(old(self)@[qq] == s0@[qq]);
                        assert(0 <= qq < old(self)@.len() && key_equiv(&old(self)@[qq].0, &key));
                    }
                    let p0 = old(self).index_of_key(&key);
                    assert(0 <= p0 < old(self)@.len() && key_equiv(&old(self)@[p0].0, &key));
                    assert(key_equiv(&s0.key_at(p0), &key));
                    s0.lemma_equiv_unique(&key, p0, qq);
                    assert(self@ =~= old(self)@.update(
                        old(self).index_of_key(&key),
                        (key, value),
                    ));
                }
                return ;
            }
            cur = c2;
            proof {
                p = q@;
                cpos = cpos.update(level as int, p);
            }
            cached[level] = c2;
        }
        proof {
            assert(self.cursor_ok(cached@[0], cpos[0], 0));
            assert(self.blocked(cpos[0], 0, &key));
            assert(cpos[0] == p);
            self.lemma_blocked_absent(&key, p);
            assert(!s0.contains_key(&key));
            // restate the descent facts on the snapshot, which outlives the
            // mutation below
            assert forall|l2: int| 0 <= l2 < MAX_HEIGHT implies s0.cursor_ok(
                #[trigger] cached@[l2],
                cpos[l2],
                l2,
            ) by {
                assert(self.cursor_ok(cached@[l2], cpos[l2], l2));
            }
            assert forall|l2: int| 0 <= l2 < MAX_HEIGHT implies s0.blocked(
                #[trigger] cpos[l2],
                l2,
                &key,
            ) by {
                assert(self.cursor_ok(cached@[l2], cpos[l2], l2));
                assert(self.blocked(cpos[l2], l2, &key));
            }
            assert forall|l2: int|
                0 <= l2 < MAX_HEIGHT && #[trigger] cpos[l2] >= 0 implies s0.key_at(
                cpos[l2],
            ).le(&key) by {
                assert(self.cursor_ok(cached@[l2], cpos[l2], l2));
            }
            assert forall|l2: int| 0 <= l2 < MAX_HEIGHT implies #[trigger] cpos[l2] <= cpos[0] by {
                assert(self.cursor_ok(cached@[l2], cpos[l2], l2));
            }
        }

        // Splice in a fresh node of the sampled height.
        let new_idx = self.nodes.len();
        let ghost ip = p + 1;

        let mut links: Vec<Option<usize>> = Vec::new();
        let mut l: usize = 0;
        while l < jump_height
            invariant
                self.wf(),
                *self == s0,
                l <= jump_height <= MAX_HEIGHT,
                cached@.len() == MAX_HEIGHT,
                cpos.len() == MAX_HEIGHT,
                links@.len() == l,
                forall|l2: int|
                    0 <= l2 < MAX_HEIGHT ==> {
                        &&& self.cursor_ok(#[trigger] cached@[l2], cpos[l2], l2)
                        &&& self.blocked(cpos[l2], l2, &key)
                    },
                forall|j: int| 0 <= j < l ==> #[trigger] links@[j] == s0.link_of(cpos[j], j),
            decreases jump_height - l,
        {
            let lk: Option<usize> = match cached[l] {
                None => self.head_links[l],
                Some(i) => {
                    proof {
                        assert(self.cursor_ok(cached@[l as int], cpos[l as int], l as int));
                    }
                    let node = self.nodes[i].as_ref().unwrap();
                    node.links[l]
                },
            };
            links.push(lk);
            l += 1;
        }

        self.nodes.push(Some(SkipNode { key, value, links }));

        let mut l: usize = 0;
        while l < jump_height
            invariant
                s0.wf(),
                1 <= jump_height,
                l <= jump_height <= MAX_HEIGHT,
                cached@.len() == MAX_HEIGHT,
                cpos.len() == MAX_HEIGHT,
                new_idx == s0.nodes@.len(),
                ip == cpos[0] + 1,
                !s0.contains_key(&key),
                forall|l2: int|
                    0 <= l2 < MAX_HEIGHT ==> s0.cursor_ok(#[trigger] cached@[l2], cpos[l2], l2),
                forall|l2: int| 0 <= l2 < MAX_HEIGHT ==> s0.blocked(#[trigger] cpos[l2], l2, &key),
                forall|l2: int|
                    0 <= l2 < MAX_HEIGHT ==> (cpos[l2] >= 0 ==> s0.key_at(
                        #[trigger] cpos[l2],
                    ).le(&key)),
                forall|l2: int| 0 <= l2 < MAX_HEIGHT ==> #[trigger] cpos[l2] <= cpos[0],
                self.chain == s0.chain,
                self.len == s0.len,
                self.head_links@.len() == MAX_HEIGHT,
                self.nodes@.len() == s0.nodes@.len() + 1,
                self.nodes@[new_idx as int] is Some,
                self.nodes@[new_idx as int]->Some_0.key == key,
                self.nodes@[new_idx as int]->Some_0.value == value,
                self.nodes@[new_idx as int]->Some_0.links@.len() == jump_height,
                forall|j: int|
                    0 <= j < jump_height ==> self.nodes@[new_idx as int]->Some_0.links@[j]
                        == s0.link_of(#[trigger] cpos[j], j),
                forall|q: int|
                    0 <= q < s0.chain@.len() ==> self.nodes@[#[trigger] s0.chain@[q] as int]
                        is Some,
                forall|q: int|
                    0 <= q < s0.chain@.len() ==> {
                        let n1 = self.nodes@[#[trigger] s0.chain@[q] as int]->Some_0;
                        &&& n1.key == s0.node_at(q).key
                        &&& n1.value == s0.node_at(q).value
                        &&& n1.links@.len() == s0.node_at(q).links@.len()
                    },
                forall|q: int, lv: int|
                    0 <= q < s0.chain@.len() && 0 <= lv < s0.heights()[q]
                        ==> self.nodes@[s0.chain@[q] as int]->Some_0.links@[lv] == (if lv < l
                        && cpos[lv] == q {
                        Some(new_idx)
                    } else {
                        s0.node_at(q).links@[lv]
                    }),
                forall|lv: int|
                    0 <= lv < MAX_HEIGHT ==> self.head_links@[lv] == (if lv < l && cpos[lv] == -1 {
                        Some(new_idx)
                    } else {
                        s0.head_links@[lv]
                    }),
            decreases jump_height - l,
        {
            let ghost prev = *self;
            match cached[l] {
                None => {
                    proof {
                        assert(s0.cursor_ok(cached@[l as int], cpos[l as int], l as int));
                        assert(cpos[l as int] == -1);
                    }
                    self.head_links[l] = Some(new_idx);
                },
                Some(i) => {
                    proof {
                        assert(s0.cursor_ok(cached@[l as int], cpos[l as int], l as int));
                        assert(0 <= cpos[l as int] < s0.chain@.len());
                        assert(i == s0.chain@[cpos[l as int]]);
                        assert(i < new_idx);
                        assert(s0.heights()[cpos[l as int]] > l);
                    }
                    let mut node = self.nodes[i].take().unwrap();
                    node.links[l] = Some(new_idx);
                    self.nodes[i] = Some(node);
                    proof {
                        let ghost qi = cpos[l as int];
                        assert forall|q: int|
                            0 <= q < s0.chain@.len() && q != qi implies self.nodes@[#[trigger] s0.chain@[q] as int]
                            == prev.nodes@[s0.chain@[q] as int] by {
                            if s0.chain@[q] == s0.chain@[qi] {
                                assert(false);
                            }
                        }
                    }
                },
            }
            l += 1;
        }

        proof {
            assert(vstd::std_specs::vec::spec_vec_len(&self.nodes) == self.nodes@.len());
            assert(self.len < usize::MAX);
        }
        self.len = self.len + 1;
        proof {
            self.chain = Ghost(s0.chain@.insert(ip, new_idx));
            assert forall|l2: int| 0 <= l2 < MAX_HEIGHT implies {
                &&& -1 <= #[trigger] cpos[l2] < s0.chain@.len()
                &&& (cpos[l2] >= 0 ==> s0.heights()[cpos[l2]] > l2)
            } by {
                assert(s0.cursor_ok(cached@[l2], cpos[l2], l2));
            }
            Self::lemma_splice_wf(s0, *self, key, value, cpos, jump_height as int, new_idx, ip);
        }
    }

    /// Replacing the entry at a position whose key is equivalent to the new
    /// one keeps the structure well formed and updates the abstract sequence
    /// at that position.
    proof fn lemma_replace_wf(&self, s0: Self, qq: int)
        requires
            s0.wf(),
            0 <= qq < s0.chain@.len(),
            self.chain == s0.chain,
            self.len == s0.len,
            self.head_links == s0.head_links,
            self.nodes@ == s0.nodes@.update(
                s0.chain@[qq] as int,
                self.nodes@[s0.chain@[qq] as int],
            ),
            self.nodes@[s0.chain@[qq] as int] is Some,
            self.node_at(qq).links == s0.node_at(qq).links,
            key_equiv(&self.node_at(qq).key, &s0.key_at(qq)),
        ensures
            self.wf(),
            self@ =~= s0@.update(qq, (self.node_at(qq).key, self.node_at(qq).value)),
    {
        let key = self.node_at(qq).key;
        assert forall|p: int| 0 <= p < self.chain@.len() && p != qq implies self.node_at(p)
            == s0.node_at(p) by {
            if s0.chain@[p] == s0.chain@[qq] {
                assert(false);
            }
        }
        assert(forall|p: int|
            0 <= p < self.chain@.len() ==> #[trigger] self.heights()[p] == s0.heights()[p]);
        assert(self.heights() =~= s0.heights());
        assert forall|p: int, q: int|
            #![trigger self.key_at(p), self.key_at(q)]
            0 <= p < q < self.chain@.len() implies key_lt(&self.key_at(p), &self.key_at(q)) by {
            assert(key_lt(&s0.key_at(p), &s0.key_at(q)));
            if p == qq {
                crate::keys::lemma_key_lt_equiv_left(&s0.key_at(p), &s0.key_at(q), &key);
            }
            if q == qq {
                crate::keys::lemma_key_lt_equiv_right(&s0.key_at(p), &s0.key_at(q), &key);
            }
        }
        assert forall|p: int, l: int|
            -1 <= p < self.chain@.len() && 0 <= l < (if p == -1 {
                MAX_HEIGHT as int
            } else {
                self.heights()[p]
            }) implies #[trigger] self.link_ok(p, l) by {
            assert(s0.link_ok(p, l));
            assert(self.link_of(p, l) == s0.link_of(p, l));
            match s0.link_of(p, l) {
                None => {},
                Some(i) => {
                    let q = s0.pos_of_index(i);
                    self.lemma_pos_of_index(q);
                },
            }
        }
        assert(forall|p: int|
            0 <= p < self.chain@.len() ==> (#[trigger] self.node_at(p).links@[0]) == s0.node_at(
                p,
            ).links@[0]);
    }

    /// Gets a mutable reference to the value under the given key. Writing
    /// through the reference changes that entry's value and nothing else.
    pub fn get_mut(&mut self, key: &K) -> (r: Option<&mut V>)
        requires
            old(self).wf(),
        ensures
            old(self).contains_key(key) ==> r.is_some() && *r.unwrap() == old(self)@[old(
                self,
            ).index_of_key(key)].1 && final(self).wf() && final(self)@ =~= old(self)@.update(
                old(self).index_of_key(key),
                (old(self)@[old(self).index_of_key(key)].0, *final(r.unwrap())),
            ),
            !old(self).contains_key(key) ==> r.is_none() && *final(self) == *old(self),
    {
        let mut cur: Option<usize> = None;
        let ghost mut p: int = -1;
        let mut level: usize = MAX_HEIGHT;
        while level > 0
            invariant
                self.wf(),
                *self == *old(self),
                level <= MAX_HEIGHT,
                self.cursor_ok(cur, p, level as int - 1),
                p >= 0 ==> self.key_at(p).le(key),
                level < MAX_HEIGHT ==> !(p >= 0 && key_equiv(&self.key_at(p), key)),
                level < MAX_HEIGHT ==> self.blocked(p, level as int, key),
            decreases level,
        {
            level -= 1;
            let (c2, found, q) = self.find(cur, level, key, Ghost(p));
            if found {
                let i = c2.unwrap();
                let ghost qq = q@;
                let ghost s0 = *self;
                proof {
                    self.lemma_found_index(key, qq);
                    assert forall|s1: Self|
                        ({
                            &&& s1.chain == s0.chain
                            &&& s1.head_links == s0.head_links
                            &&& s1.len == s0.len
                            &&& s1.nodes@ == s0.nodes@.update(
                                s0.chain@[qq] as int,
                                s1.nodes@[s0.chain@[qq] as int],
                            )
                            &&& s1.nodes@[s0.chain@[qq] as int] is Some
                            &&& s1.node_at(qq).key == s0.node_at(qq).key
                            &&& s1.node_at(qq).links == s0.node_at(qq).links
                        }) implies #[trigger] s1.wf() && s1@ =~= s0@.update(
                        qq,
                        (s0.key_at(qq), s1.value_at(qq)),
                    ) by {
                        K::le_total(&s0.key_at(qq), &s0.key_at(qq));
                        s1.lemma_replace_wf(s0, qq);
                    }
                }
                let slot = &mut self.nodes[i];
                match slot {
                    Some(node) => {
                        return Some(&mut node.value);
                    },
                    None => {
                        proof {
                            assert(false);
                        }
                        return None;
                    },
                }
            }
            cur = c2;
            proof {
                p = q@;
            }
        }
        proof {
            self.lemma_blocked_absent(key, p);
        }
        None
    }

    /// Removes the first entry in key order and returns it, or `None` when
    /// the list is empty. For every level the removed node occupied, the
    /// sentinel takes over its forward link.
    pub fn pop_first(&mut self) -> (r: Option<Entry<K, V>>)
        requires
            old(self).wf(),
        ensures
            final(self).wf(),
            match r {
                Some(e) => old(self)@.len() > 0 && e@ == old(self)@[0] && final(self)@ =~= old(
                    self,
                )@.drop_first(),
                None => old(self)@.len() == 0 && final(self)@ == old(self)@,
            },
    {
        let ghost s0 = *self;
        let first_link = self.head_links[0];
        match first_link {
            None => {
                proof {
                    assert(s0.head_links@[0] == s0.pos_to_link(0));
                }
                None
            },
            Some(i) => {
                proof {
                    assert(s0.head_links@[0] == s0.pos_to_link(0));
                    assert(s0.chain@.len() > 0 && i == s0.chain@[0]);
                }
                let node = self.nodes[i].take().unwrap();
                let ghost prev = *self;
                let height = node.links.len();
                let mut l: usize = 0;
                while l < height
                    invariant
                        s0.wf(),
                        prev.nodes@ == s0.nodes@.update(s0.chain@[0] as int, None),
                        prev.head_links == s0.head_links,
                        prev.chain == s0.chain,
                        prev.len == s0.len,
                        s0.chain@.len() > 0,
                        height == s0.heights()[0],
                        l <= height,
                        node.links == s0.node_at(0).links,
                        self.nodes == prev.nodes,
                        self.chain == prev.chain,
                        self.len == prev.len,
                        self.head_links@.len() == MAX_HEIGHT,
                        forall|lv: int|
                            0 <= lv < MAX_HEIGHT ==> #[trigger] self.head_links@[lv] == (if lv < l {
                                s0.node_at(0).links@[lv]
                            } else {
                                s0.head_links@[lv]
                            }),
                    decreases height - l,
                {
                    self.head_links[l] = node.links[l];
                    l += 1;
                }
                self.len = self.len - 1;
                proof {
                    self.chain = Ghost(s0.chain@.drop_first());
                    self.lemma_pop_wf(s0);
                }
                Some(Entry { key: node.key, value: node.value })
            },
        }
    }

    /// Relates the state after unlinking the first node to the state before:
    /// the structure stays well formed and the abstract sequence loses its
    /// first entry.
    proof fn lemma_pop_wf(&self, s0: Self)
        requires
            s0.wf(),
            s0.chain@.len() > 0,
            self.chain@ == s0.chain@.drop_first(),
            self.len == s0.len - 1,
            self.nodes@ == s0.nodes@.update(s0.chain@[0] as int, None),
            self.head_links@.len() == MAX_HEIGHT,
            forall|lv: int|
                0 <= lv < MAX_HEIGHT ==> #[trigger] self.head_links@[lv] == (if lv < s0.heights()[0]
                 {
                    s0.node_at(0).links@[lv]
                } else {
                    s0.head_links@[lv]
                }),
        ensures
            self.wf(),
            self@ =~= s0@.drop_first(),
    {
        let c0 = s0.chain@;
        let c1 = self.chain@;
        let len0 = c0.len() as int;
        assert(c1.len() == len0 - 1);
        assert(forall|p: int| 0 <= p < len0 - 1 ==> #[trigger] c1[p] == c0[p + 1]);

        assert forall|p: int| 0 <= p < c1.len() implies self.node_at(p) == s0.node_at(p + 1) by {
            if c0[p + 1] == c0[0] {
                assert(false);
            }
        }
        assert(forall|p: int|
            0 <= p < c1.len() ==> #[trigger] self.heights()[p] == s0.heights()[p + 1]);

        assert forall|p: int, q: int|
            #![trigger self.key_at(p), self.key_at(q)]
            0 <= p < q < c1.len() implies key_lt(&self.key_at(p), &self.key_at(q)) by {
            assert(key_lt(&s0.key_at(p + 1), &s0.key_at(q + 1)));
        }

        // level-0 threading
        assert(self.head_links@[0] == s0.node_at(0).links@[0]);
        assert(s0.node_at(0).links@[0] == s0.pos_to_link(1));
        assert(self.head_links@[0] == self.pos_to_link(0));
        assert forall|p: int| 0 <= p < c1.len() implies (#[trigger] self.node_at(p).links@[0])
            == self.pos_to_link(p + 1) by {
            assert(s0.node_at(p + 1).links@[0] == s0.pos_to_link(p + 2));
        }

        // shortcuts
        assert forall|p: int, l: int|
            -1 <= p < c1.len() && 0 <= l < (if p == -1 {
                MAX_HEIGHT as int
            } else {
                self.heights()[p]
            }) implies #[trigger] self.link_ok(p, l) by {
            let lk = self.link_of(p, l);
            let ghost op = if p == -1 && l < s0.heights()[0] {
                0
            } else if p == -1 {
                -1
            } else {
                p + 1
            };
            assert(lk == s0.link_of(op, l)) by {
                if p >= 0 {
                    assert(self.node_at(p) == s0.node_at(p + 1));
                }
            }
            assert(s0.link_ok(op, l)) by {
                if p == -1 && l < s0.heights()[0] {
                    assert(s0.heights()[0] > l);
                }
            }
            match s0.link_of(op, l) {
                None => {},
                Some(i) => {
                    let q = s0.pos_of_index(i);
                    assert(0 <= q < len0 && c0[q] == i && op < q && s0.heights()[q] > l);
                    assert(q >= 1);
                    assert(c1[q - 1] == i);
                    self.lemma_pos_of_index(q - 1);
                    assert(self.heights()[q - 1] > l);
                    assert(p < q - 1 || (p >= 0 && p + 1 < q));
                },
            }
        }

        assert forall|p: int| 0 <= p < self@.len() implies self@[p] == s0@.drop_first()[p] by {
            assert(s0@.drop_first()[p] == s0@[p + 1]);
        }
    }

    /// Gets an iterator over the list, sorted by key.
    pub fn iter(&self) -> (it: Iter<K, V>)
        requires
            self.wf(),
        ensures
            it.wf(),
            it.source() == self,
            it.remaining() == self@,
    {
        let it = Iter { list: self, cur: self.head_links[0], pos: Ghost(0) };
        proof {
            assert(self.head_links@[0] == self.pos_to_link(0));
            assert(it.remaining() =~= self@);
        }
        it
    }

    /// Collects references to the keys, in ascending order.
    pub fn keys(&self) -> (r: Vec<&K>)
        requires
            self.wf(),
        ensures
            r@.len() == self@.len(),
            forall|i: int| 0 <= i < r@.len() ==> *(#[trigger] r@[i]) == self@[i].0,
    {
        let mut out: Vec<&K> = Vec::new();
        let mut it = self.iter();
        loop
            invariant
                it.wf(),
                it.source() == self,
                self.wf(),
                it.remaining() =~= self@.skip(out@.len() as int),
                out@.len() <= self@.len(),
                forall|i: int| 0 <= i < out@.len() ==> *(#[trigger] out@[i]) == self@[i].0,
            ensures
                out@.len() == self@.len(),
                forall|i: int| 0 <= i < out@.len() ==> *(#[trigger] out@[i]) == self@[i].0,
            decreases it.remaining().len(),
        {
            match it.next() {
                None => {
                    break ;
                },
                Some(pair) => {
                    out.push(pair.0);
                },
            }
        }
        out
    }

    /// Collects references to the values, in ascending key order.
    pub fn values(&self) -> (r: Vec<&V>)
        requires
            self.wf(),
        ensures
            r@.len() == self@.len(),
            forall|i: int| 0 <= i < r@.len() ==> *(#[trigger] r@[i]) == self@[i].1,
    {
        let mut out: Vec<&V> = Vec::new();
        let mut it = self.iter();
        loop
            invariant
                it.wf(),
                it.source() == self,
                self.wf(),
                it.remaining() =~= self@.skip(out@.len() as int),
                out@.len() <= self@.len(),
                forall|i: int| 0 <= i < out@.len() ==> *(#[trigger] out@[i]) == self@[i].1,
            ensures
                out@.len() == self@.len(),
                forall|i: int| 0 <= i < out@.len() ==> *(#[trigger] out@[i]) == self@[i].1,
            decreases it.remaining().len(),
        {
            match it.next() {
                None => {
                    break ;
                },
                Some(pair) => {
                    out.push(pair.1);
                },
            }
        }
        out
    }

    /// Collects the entries whose keys lie in the half-open interval
    /// `[key1, key2)`, in ascending key order: exactly the sub-sequence of the
    /// list's entries selected by that window.
    pub fn range(&self, key1: K, key2: K) -> (r: Vec<(&K, &V)>)
        requires
            self.wf(),
        ensures
            ({
                let sel = window(self@, &key1, &key2);
                &&& r@.len() == sel.len()
                &&& forall|i: int|
                    0 <= i < r@.len() ==> (*(#[trigger] r@[i].0), *r@[i].1) == sel[i]
            }),
    {
        let mut out: Vec<(&K, &V)> = Vec::new();
        let mut it = self.iter();
        let ghost mut seen: int = 0;
        proof {
            assert(self@.take(0) =~= Seq::<(K, V)>::empty());
        }
        loop
            invariant
                it.wf(),
                it.source() == self,
                self.wf(),
                0 <= seen <= self@.len(),
                it.remaining() =~= self@.skip(seen),
                ({
                    let sel = window(self@.take(seen), &key1, &key2);
                    &&& out@.len() == sel.len()
                    &&& forall|i: int|
                        0 <= i < out@.len() ==> (*(#[trigger] out@[i].0), *out@[i].1) == sel[i]
                }),
            ensures
                seen == self@.len(),
                ({
                    let sel = window(self@.take(seen), &key1, &key2);
                    &&& out@.len() == sel.len()
                    &&& forall|i: int|
                        0 <= i < out@.len() ==> (*(#[trigger] out@[i].0), *out@[i].1) == sel[i]
                }),
            decreases it.remaining().len(),
        {
            match it.next() {
                None => {
                    break ;
                },
                Some(pair) => {
                    let keep = match key1.compare(pair.0) {
                        KeyOrdering::Greater => false,
                        _ => {
                            match pair.0.compare(&key2) {
                                KeyOrdering::Less => true,
                                _ => false,
                            }
                        },
                    };
                    proof {
                        assert(self@.take(seen + 1).drop_last() =~= self@.take(seen));
                        assert(self@.take(seen + 1).last() == self@[seen]);
                        assert((*pair.0, *pair.1) == self@[seen]);
                        assert(keep == (key1.le(&self@[seen].0) && key_lt(&self@[seen].0, &key2)));
                    }
                    if keep {
                        out.push(pair);
                    }
                    proof {
                        seen = seen + 1;
                    }
                },
            }
        }
        proof {
            assert(self@.take(seen) =~= self@);
        }
        out
    }

    /// Creates a consuming iterator that drains the list in ascending key
    /// order.
    pub fn into_iter(self) -> (it: IntoIter<K, V>)
        requires
            self.wf(),
        ensures
            it.wf(),
            it.remaining() == self@,
    {
        IntoIter { list: self }
    }

    /// Creates an empty skip list.
    pub fn new() -> (r: Self)
        ensures
            r.wf(),
            r@ =~= Seq::<(K, V)>::empty(),
    {
        let mut head_links: Vec<Option<usize>> = Vec::new();
        let mut l: usize = 0;
        while l < MAX_HEIGHT
            invariant
                l <= MAX_HEIGHT,
                head_links@.len() == l,
                forall|i: int| 0 <= i < l ==> head_links@[i] is None,
            decreases MAX_HEIGHT - l,
        {
            head_links.push(None);
            l += 1;
        }
        SkipList {
            nodes: Vec::new(),
            head_links,
            len: 0,
            rng: fresh_rng(),
            chain: Ghost(Seq::empty()),
        }
    }

    /// Order invariant: the entries of a well-formed skip list ascend
    /// strictly in key order, so iteration yields strictly ascending keys.
    pub proof fn lemma_entries_sorted(&self)
        requires
            self.wf(),
        ensures
            forall|p: int, q: int|
                0 <= p < q < self@.len() ==> key_lt(&self@[p].0, &self@[q].0),
    {
        assert forall|p: int, q: int| 0 <= p < q < self@.len() implies key_lt(
            &self@[p].0,
            &self@[q].0,
        ) by {
            assert(key_lt(&self.key_at(p), &self.key_at(q)));
        }
    }

    /// Drain order: the first entry's key sorts strictly before every other
    /// key, so removing minima one by one yields ascending keys.
    pub proof fn lemma_first_is_minimum(&self)
        requires
            self.wf(),
            self@.len() > 0,
        ensures
            forall|p: int| 1 <= p < self@.len() ==> key_lt(&self@[0].0, &self@[p].0),
    {
        self.lemma_entries_sorted();
    }

    /// Length invariant: inserting under a fresh key grows the list by one
    /// entry, while re-inserting under a present key leaves the length
    /// unchanged. The hypotheses restate what `insert` ensures.
    pub proof fn lemma_insert_len(pre: Self, post: Self, k: K, v: V)
        requires
            pre.wf(),
            post@ == (if pre.contains_key(&k) {
                pre@.update(pre.index_of_key(&k), (k, v))
            } else {
                pre@.insert(count_lt(pre@, &k), (k, v))
            }),
        ensures
            pre.contains_key(&k) ==> post@.len() == pre@.len(),
            !pre.contains_key(&k) ==> post@.len() == pre@.len() + 1,
    {
        if !pre.contains_key(&k) {
            lemma_count_lt_bounds(pre@, &k);
            pre@.insert_ensures(count_lt(pre@, &k), (k, v));
        }
    }

    /// Replace semantics: after inserting `(k, v1)` and then `(k, v2)` into a
    /// well-formed list, a lookup of `k` yields `v2`. The hypotheses restate
    /// what `insert` ensures of the two intermediate states.
    pub proof fn lemma_replace_semantics(pre: Self, mid: Self, post: Self, k: K, v1: V, v2: V)
        requires
            pre.wf(),
            mid.wf(),
            post.wf(),
            mid@ == (if pre.contains_key(&k) {
                pre@.update(pre.index_of_key(&k), (k, v1))
            } else {
                pre@.insert(count_lt(pre@, &k), (k, v1))
            }),
            post@ == (if mid.contains_key(&k) {
                mid@.update(mid.index_of_key(&k), (k, v2))
            } else {
                mid@.insert(count_lt(mid@, &k), (k, v2))
            }),
        ensures
            post.contains_key(&k),
            post@[post.index_of_key(&k)].1 == v2,
    {
        K::le_total(&k, &k);
        let im: int = if pre.contains_key(&k) {
            pre.index_of_key(&k)
        } else {
            count_lt(pre@, &k)
        };
        if !pre.contains_key(&k) {
            lemma_count_lt_bounds(pre@, &k);
            pre@.insert_ensures(im, (k, v1));
        }
        assert(0 <= im < mid@.len() && mid@[im] == (k, v1));
        assert(mid.contains_key(&k));
        let idx = mid.index_of_key(&k);
        assert(0 <= idx < mid@.len() && key_equiv(&mid@[idx].0, &k));
        assert(post@[idx] == (k, v2));
        assert(post.contains_key(&k));
        assert(key_equiv(&post.key_at(idx), &k));
        assert(key_equiv(&post.key_at(post.index_of_key(&k)), &k));
        post.lemma_equiv_unique(&k, idx, post.index_of_key(&k));
    }

    /// Returns the number of elements in the skip list.
    pub fn len(&self) -> (r: usize)
        requires
            self.wf(),
        ensures
            r == self@.len(),
    {
        self.len
    }

    /// Indicates whether the skip list is empty.
    pub fn is_empty(&self) -> (r: bool)
        requires
            self.wf(),
        ensures
            r == (self@.len() == 0),
    {
        self.len == 0
    }
}

/// A borrowing iterator over a skip list, yielding entries in ascending key
/// order by walking the level-0 links.
pub struct Iter<'a, K, V> {
    list: &'a SkipList<K, V>,
    cur: Option<usize>,
    pos: Ghost<int>,
}

impl<'a, K: TotalOrder, V> Iter<'a, K, V> {
    /// The iterator points into a well-formed list, at a valid position.
    pub closed spec fn wf(&self) -> bool {
        &&& self.list.wf()
        &&& 0 <= self.pos@ <= self.list@.len()
        &&& self.cur == self.list.pos_to_link(self.pos@)
    }

    /// The entries still to be yielded, in order.
    pub closed spec fn remaining(&self) -> Seq<(K, V)> {
        self.list@.skip(self.pos@)
    }

    /// The list being iterated over.
    pub closed spec fn source(&self) -> &'a SkipList<K, V> {
        self.list
    }

    /// Yields the next entry in ascending key order, or `None` at the end.
    pub fn next(&mut self) -> (r: Option<(&'a K, &'a V)>)
        requires
            old(self).wf(),
        ensures
            final(self).wf(),
            final(self).source() == old(self).source(),
            old(self).remaining().len() > 0 ==> r.is_some() && (*r.unwrap().0, *r.unwrap().1)
                == old(self).remaining()[0] && final(self).remaining() == old(
                self,
            ).remaining().drop_first(),
            old(self).remaining().len() == 0 ==> r.is_none() && *final(self) == *old(self),
    {
        match self.cur {
            None => None,
            Some(i) => {
                let ghost p = self.pos@;
                let node = self.list.nodes[i].as_ref().unwrap();
                proof {
                    assert(self.list.chain@[p] == i);
                    assert(1 <= self.list.heights()[p]);
                    assert(node.links@.len() == self.list.heights()[p]);
                    assert(self.list.node_at(p).links@[0] == self.list.pos_to_link(p + 1));
                }
                self.cur = node.links[0];
                proof {
                    self.pos = Ghost(p + 1);
                    assert(old(self).remaining()[0] == self.list@[p]);
                    assert(final(self).remaining() =~= old(self).remaining().drop_first());
                }
                Some((&node.key, &node.value))
            },
        }
    }
}

/// A consuming iterator that drains a skip list in ascending key order by
/// removing the minimum repeatedly.
pub struct IntoIter<K, V> {
    list: SkipList<K, V>,
}

impl<K: TotalOrder, V> IntoIter<K, V> {
    /// The drained list stays well formed.
    pub closed spec fn wf(&self) -> bool {
        self.list.wf()
    }

    /// The entries still to be yielded, in order.
    pub closed spec fn remaining(&self) -> Seq<(K, V)> {
        self.list@
    }

    /// Takes the smallest remaining entry, or `None` once the list is empty.
    pub fn next(&mut self) -> (r: Option<(K, V)>)
        requires
            old(self).wf(),
        ensures
            final(self).wf(),
            old(self).remaining().len() > 0 ==> r.is_some() && r.unwrap() == old(
                self,
            ).remaining()[0] && final(self).remaining() == old(self).remaining().drop_first(),
            old(self).remaining().len() == 0 ==> r.is_none() && final(self).remaining() == old(
                self,
            ).remaining(),
    {
        match self.list.pop_first() {
            None => None,
            Some(e) => Some(e.into_tuple()),
        }
    }
}

} // verus!
