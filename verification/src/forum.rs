//! The forum: posts, threads, and the world tick.
//!
//! Posts are append-only: there is no edit and no delete. The tick is
//! monotone and advances only when asked. Nothing here reads a post's body
//! or ranks posts by anything.

use vstd::prelude::*;
use crate::act::Act;
use crate::graph::Position;
use crate::identity::Record;
use crate::psychon::Emitted;
use crate::voice::{Square, Utterance, VoiceId};
use crate::society::{utterance_body, utterance_text};

verus! {

/// Handle for a post within a forum.
#[derive(Debug, Clone, Copy, PartialEq, Eq, Structural, PartialOrd, Ord, Hash)]
pub struct PostId(pub u64);

/// Who registered a post. Nothing in the forum sorts or filters on it.
#[derive(Debug, Clone, PartialEq, Eq)]
pub enum Speaker {
    /// The player. Themselves an agent, and not privileged here.
    Player,
    /// A pruned agent, by its handle.
    Agent(String),
    /// A voice of the square.
    Voice(VoiceId),
    /// The world reporting itself, by the name of its source.
    World(String),
}

/// A post: content registered at a terminus.
#[derive(Debug, Clone)]
pub struct Post {
    /// Handle.
    pub id: PostId,
    /// The post this replies to, if any. `None` makes it a thread root.
    pub parent: Option<PostId>,
    /// Who registered it.
    pub speaker: Speaker,
    /// What was said. Never inspected.
    pub body: String,
    /// The emitted state at registration: terminus and record.
    pub emitted: Emitted,
    /// Tick at which it was registered.
    pub at: u64,
    /// What the registration did to the gaps, if both sides were measured.
    /// `None` means not measured, which is not the same as inert.
    pub act: Option<Act>,
}

impl Post {
    /// Whether this post is a thread root.
    pub fn is_root(&self) -> (b: bool)
        ensures
            b == (self.parent is None),
    {
        self.parent.is_none()
    }

    /// The terminus the post registered at.
    pub fn terminus(&self) -> (t: Position)
        ensures
            t == self.emitted.terminus,
    {
        self.emitted.terminus
    }
}

/// The root reached from `id` by following at most `fuel` parent links, if
/// every link lands on a post.
pub open spec fn chase(posts: Seq<Post>, id: PostId, fuel: nat) -> Option<PostId>
    decreases fuel,
{
    if id.0 >= posts.len() {
        None
    } else {
        match posts[id.0 as int].parent {
            None => Some(id),
            Some(p) => if fuel == 0 {
                None
            } else {
                chase(posts, p, (fuel - 1) as nat)
            },
        }
    }
}

/// The root of the thread `id` belongs to: `None` if a link is broken or the
/// chain is longer than the forum, which only a cycle can make it.
pub open spec fn root_in(posts: Seq<Post>, id: PostId) -> Option<PostId> {
    chase(posts, id, posts.len())
}

/// The longest reply chain below `id` within `budget` links.
pub open spec fn depth_from(posts: Seq<Post>, id: PostId, budget: nat) -> nat
    decreases budget, posts.len() + 1,
{
    if budget == 0 {
        0
    } else {
        best_reply(posts, id, budget, posts.len() as int)
    }
}

/// The longest chain through a reply to `id` among the first `i` posts.
pub open spec fn best_reply(posts: Seq<Post>, id: PostId, budget: nat, i: int) -> nat
    decreases budget, i,
{
    if i <= 0 || i > posts.len() || budget == 0 {
        0
    } else {
        let prev = best_reply(posts, id, budget, i - 1);
        if posts[i - 1].parent == Some(id) {
            let here = 1 + depth_from(posts, posts[i - 1].id, (budget - 1) as nat);
            if here > prev {
                here
            } else {
                prev
            }
        } else {
            prev
        }
    }
}

/// The posts behind a sequence of references.
pub open spec fn derefs(s: Seq<&Post>) -> Seq<Post> {
    s.map_values(|p: &Post| *p)
}

/// The forum: every post, in registration order.
#[derive(Debug)]
pub struct Forum {
    posts: Vec<Post>,
    next: u64,
    tick: u64,
}

impl Forum {
    #[verifier::type_invariant]
    closed spec fn numbered(&self) -> bool {
        &&& self.next == self.posts@.len()
        &&& forall|i: int| 0 <= i < self.posts@.len() ==> #[trigger] self.posts@[i].id == PostId(i as u64)
    }

    /// Every post, oldest first.
    pub closed spec fn all(&self) -> Seq<Post> {
        self.posts@
    }

    /// The current tick.
    pub closed spec fn now(&self) -> u64 {
        self.tick
    }

    /// An empty forum at tick zero.
    pub fn new() -> (f: Self)
        ensures
            f.all() == Seq::<Post>::empty(),
            f.now() == 0,
    {
        Forum { posts: Vec::new(), next: 0, tick: 0 }
    }

    /// The current tick.
    pub fn tick(&self) -> (t: u64)
        ensures
            t == self.now(),
    {
        self.tick
    }

    /// Advance the world one step; the tick never decreases.
    pub fn advance(&mut self) -> (t: u64)
        ensures
            t == final(self).now(),
            final(self).now() == if old(self).now() < u64::MAX {
                old(self).now() + 1
            } else {
                old(self).now() as int
            },
            final(self).all() == old(self).all(),
    {
        proof { use_type_invariant(&*self); }
        self.tick = self.tick.saturating_add(1);
        self.tick
    }

    /// Register a post at the current tick, returning its handle.
    pub fn register(
        &mut self,
        parent: Option<PostId>,
        speaker: Speaker,
        body: &str,
        emitted: Emitted,
        act: Option<Act>,
    ) -> (id: PostId)
        requires
            old(self).all().len() < u64::MAX,
        ensures
            id == PostId(old(self).all().len() as u64),
            final(self).now() == old(self).now(),
            final(self).all().len() == old(self).all().len() + 1,
            final(self).all().take(old(self).all().len() as int) == old(self).all(),
            final(self).all().last().id == id,
            final(self).all().last().parent == parent,
            final(self).all().last().speaker == speaker,
            final(self).all().last().body@ == body@,
            final(self).all().last().emitted == emitted,
            final(self).all().last().at == old(self).now(),
            final(self).all().last().act == act,
    {
        proof { use_type_invariant(&*self); }
        let id = PostId(self.next);
        let post = Post {
            id,
            parent,
            speaker,
            body: String::from_str(body),
            emitted,
            at: self.tick,
            act,
        };
        let mut current = Forum::new();
        std::mem::swap(&mut current, self);
        proof { use_type_invariant(&current); }
        let Forum { mut posts, next, tick } = current;
        let ghost before = posts@;
        posts.push(post);
        assert(posts@.take(before.len() as int) =~= before);
        *self = Forum { posts, next: next + 1, tick };
        id
    }

    /// Every post, oldest first.
    pub fn posts(&self) -> (ps: &[Post])
        ensures
            ps@ == self.all(),
            forall|i: int| 0 <= i < ps@.len() ==> #[trigger] ps@[i].id == PostId(i as u64),
    {
        proof { use_type_invariant(self); }
        self.posts.as_slice()
    }

    /// One post by handle.
    pub fn get(&self, id: PostId) -> (p: Option<&Post>)
        ensures
            match p {
                Some(post) => id.0 < self.all().len() && *post == self.all()[id.0 as int],
                None => id.0 >= self.all().len(),
            },
    {
        proof { use_type_invariant(self); }
        if id.0 < self.next {
            let n = self.posts.len();
            assert(id.0 < n);
            let i = id.0 as usize;
            assert(i as int == id.0 as int);
            Some(&self.posts[i])
        } else {
            None
        }
    }

    /// The direct replies to `id`, oldest first.
    pub fn replies(&self, id: PostId) -> (rs: Vec<&Post>)
        ensures
            derefs(rs@) == self.all().filter(|p: Post| p.parent == Some(id)),
    {
        let mut out: Vec<&Post> = Vec::new();
        let mut i: usize = 0;
        while i < self.posts.len()
            invariant
                i <= self.posts@.len(),
                derefs(out@) == self.posts@.take(i as int).filter(|p: Post| p.parent == Some(id)),
            decreases self.posts@.len() - i,
        {
            proof {
                reveal(Seq::filter);
                assert(self.posts@.take(i + 1).drop_last() =~= self.posts@.take(i as int));
            }
            let p = &self.posts[i];
            let ghost before = out@;
            if p.parent == Some(id) {
                out.push(p);
                assert(derefs(out@) =~= derefs(before).push(*p));
            }
            i += 1;
        }
        assert(self.posts@.take(self.posts@.len() as int) =~= self.posts@);
        out
    }

    /// The root of the thread `id` belongs to, or `None` if the chain of
    /// parents is broken or cyclic.
    pub fn root_of(&self, id: PostId) -> (r: Option<PostId>)
        ensures
            r == root_in(self.all(), id),
    {
        proof { use_type_invariant(self); }
        let n = self.posts.len();
        let mut cur = id;
        let mut fuel: usize = n;
        loop
            invariant
                n == self.posts@.len(),
                fuel <= n,
                root_in(self.posts@, id) == chase(self.posts@, cur, fuel as nat),
                forall|i: int| 0 <= i < self.posts@.len() ==> #[trigger] self.posts@[i].id == PostId(i as u64),
            decreases fuel,
        {
            match self.get(cur) {
                None => {
                    return None;
                },
                Some(p) => {
                    match p.parent {
                        None => {
                            return Some(p.id);
                        },
                        Some(parent) => {
                            if fuel == 0 {
                                return None;
                            }
                            fuel -= 1;
                            cur = parent;
                        },
                    }
                },
            }
        }
    }

    /// Every post in the thread `id` belongs to, oldest first, root
    /// included; empty if `id` has no root.
    pub fn thread(&self, id: PostId) -> (ps: Vec<&Post>)
        ensures
            match root_in(self.all(), id) {
                None => ps@.len() == 0,
                Some(root) => derefs(ps@) == self.all().filter(|p: Post| root_in(self.all(), p.id) == Some(root)),
            },
    {
        let mut out: Vec<&Post> = Vec::new();
        let root = match self.root_of(id) {
            None => {
                return out;
            },
            Some(r) => r,
        };
        let ghost all = self.posts@;
        let mut i: usize = 0;
        while i < self.posts.len()
            invariant
                i <= self.posts@.len(),
                all == self.posts@,
                derefs(out@) == self.posts@.take(i as int).filter(|p: Post| root_in(all, p.id) == Some(root)),
            decreases self.posts@.len() - i,
        {
            proof {
                reveal(Seq::filter);
                assert(self.posts@.take(i + 1).drop_last() =~= self.posts@.take(i as int));
            }
            let p = &self.posts[i];
            let ghost before = out@;
            if self.root_of(p.id) == Some(root) {
                out.push(p);
                assert(derefs(out@) =~= derefs(before).push(*p));
            }
            i += 1;
        }
        assert(self.posts@.take(self.posts@.len() as int) =~= self.posts@);
        out
    }

    /// How many re-registrations deep the longest reply chain below `root`
    /// runs, counting at most as many links as there are posts.
    pub fn depth(&self, root: PostId) -> (d: usize)
        ensures
            d == depth_from(self.all(), root, self.all().len() as nat),
    {
        self.walk(root, self.posts.len())
    }

    fn walk(&self, id: PostId, budget: usize) -> (d: usize)
        requires
            budget <= self.all().len(),
        ensures
            d == depth_from(self.all(), id, budget as nat),
            d <= budget,
        decreases budget, self.all().len() + 1,
    {
        if budget == 0 {
            return 0;
        }
        let mut best: usize = 0;
        let mut i: usize = 0;
        while i < self.posts.len()
            invariant
                0 < budget <= self.posts@.len(),
                i <= self.posts@.len(),
                best == best_reply(self.posts@, id, budget as nat, i as int),
                best <= budget,
            decreases self.posts@.len() - i,
        {
            let p = &self.posts[i];
            if p.parent == Some(id) {
                let here = 1 + self.walk(p.id, budget - 1);
                if here > best {
                    best = here;
                }
            }
            i += 1;
        }
        best
    }
}

/// Whether every post is numbered by its place and every reply names an
/// earlier post, as registering posts one by one with earlier parents
/// leaves them.
pub open spec fn replies_look_back(posts: Seq<Post>) -> bool {
    &&& posts.len() <= u64::MAX
    &&& forall|i: int| 0 <= i < posts.len() ==> {
        &&& (#[trigger] posts[i]).id == PostId(i as u64)
        &&& (posts[i].parent matches Some(p) ==> p.0 < i)
    }
}

/// How many posts lie after `id`.
pub open spec fn posts_after(posts: Seq<Post>, id: PostId) -> nat {
    if id.0 < posts.len() { (posts.len() - id.0) as nat } else { 0 }
}

proof fn lemma_depth_stable(posts: Seq<Post>, id: PostId, b1: nat, b2: nat)
    requires
        replies_look_back(posts),
        b1 > 0,
        b2 > 0,
        b1 >= posts_after(posts, id),
        b2 >= posts_after(posts, id),
    ensures
        depth_from(posts, id, b1) == depth_from(posts, id, b2),
    decreases posts_after(posts, id), posts.len() + 1,
{
    lemma_best_stable(posts, id, b1, b2, posts.len() as int);
}

proof fn lemma_best_stable(posts: Seq<Post>, id: PostId, b1: nat, b2: nat, i: int)
    requires
        replies_look_back(posts),
        0 <= i <= posts.len(),
        b1 > 0,
        b2 > 0,
        b1 >= posts_after(posts, id),
        b2 >= posts_after(posts, id),
    ensures
        best_reply(posts, id, b1, i) == best_reply(posts, id, b2, i),
    decreases posts_after(posts, id), i,
{
    if i > 0 {
        lemma_best_stable(posts, id, b1, b2, i - 1);
        let q = posts[i - 1];
        if q.parent == Some(id) {
            assert(id.0 < i - 1);
            assert(q.id == PostId((i - 1) as u64));
            assert(posts_after(posts, q.id) < posts_after(posts, id));
            lemma_depth_stable(posts, q.id, (b1 - 1) as nat, (b2 - 1) as nat);
        }
    }
}

/// Depth is the longest reply chain: where every reply names an earlier
/// post, the budget of links a depth is measured with does not bind once it
/// is at least the number of posts, so the depth of a post is zero when
/// nothing replies to it and otherwise one more than the deepest of its
/// replies, measured the same way.
pub proof fn depth_is_the_longest_reply_chain(posts: Seq<Post>, id: PostId, budget: nat)
    requires
        replies_look_back(posts),
        budget >= posts.len(),
    ensures
        depth_from(posts, id, budget) == depth_from(posts, id, posts.len()),
        depth_from(posts, id, posts.len()) == best_reply(posts, id, posts.len() + 1, posts.len() as int),
{
    if posts.len() > 0 {
        lemma_depth_stable(posts, id, budget, posts.len());
        lemma_depth_stable(posts, id, posts.len() + 1, posts.len());
    }
}

proof fn lemma_best_reply_is_the_deepest(posts: Seq<Post>, id: PostId, budget: nat, i: int)
    requires
        budget > 0,
        0 <= i <= posts.len(),
    ensures
        forall|j: int| 0 <= j < i && (#[trigger] posts[j]).parent == Some(id)
            ==> best_reply(posts, id, budget, i) >= 1 + depth_from(posts, posts[j].id, (budget - 1) as nat),
        (exists|j: int| 0 <= j < i && (#[trigger] posts[j]).parent == Some(id)) ==> exists|j: int|
            0 <= j < i && (#[trigger] posts[j]).parent == Some(id)
                && best_reply(posts, id, budget, i) == 1 + depth_from(posts, posts[j].id, (budget - 1) as nat),
        (forall|j: int| 0 <= j < i ==> (#[trigger] posts[j]).parent != Some(id)) ==> best_reply(posts, id, budget, i) == 0,
    decreases i,
{
    if i > 0 {
        lemma_best_reply_is_the_deepest(posts, id, budget, i - 1);
        let earlier = best_reply(posts, id, budget, i - 1);
        if posts[i - 1].parent == Some(id) {
            let through = 1 + depth_from(posts, posts[i - 1].id, (budget - 1) as nat);
            if through > earlier {
                assert(posts[i - 1].parent == Some(id));
            } else {
                if forall|j: int| 0 <= j < i - 1 ==> (#[trigger] posts[j]).parent != Some(id) {
                    assert(earlier == 0);
                    assert(false);
                }
            }
        }
    }
}

/// The depth below a post is one more than the depth below its deepest
/// reply, and zero when nothing replies to it: within any budget of links,
/// the depth below `id` is at least one more than the depth below each
/// reply (with a link less to spend), equals that for some reply when there
/// is one, and is zero when there is none.
pub proof fn depth_is_one_more_than_the_deepest_reply(posts: Seq<Post>, id: PostId, budget: nat)
    requires
        budget > 0,
    ensures
        forall|j: int| 0 <= j < posts.len() && (#[trigger] posts[j]).parent == Some(id)
            ==> depth_from(posts, id, budget) >= 1 + depth_from(posts, posts[j].id, (budget - 1) as nat),
        (exists|j: int| 0 <= j < posts.len() && (#[trigger] posts[j]).parent == Some(id)) ==> exists|j: int|
            0 <= j < posts.len() && (#[trigger] posts[j]).parent == Some(id)
                && depth_from(posts, id, budget) == 1 + depth_from(posts, posts[j].id, (budget - 1) as nat),
        (forall|j: int| 0 <= j < posts.len() ==> (#[trigger] posts[j]).parent != Some(id)) ==> depth_from(posts, id, budget) == 0,
{
    lemma_best_reply_is_the_deepest(posts, id, budget, posts.len() as int);
}

/// In a forum whose replies name earlier posts, the depth of a post, as
/// `Forum::depth` measures it, is one more than the depth of its deepest
/// reply, measured the same way, and zero when nothing replies to it.
pub proof fn a_thread_is_as_deep_as_its_deepest_reply(posts: Seq<Post>, id: PostId)
    requires
        replies_look_back(posts),
    ensures
        forall|j: int| 0 <= j < posts.len() && (#[trigger] posts[j]).parent == Some(id)
            ==> depth_from(posts, id, posts.len()) >= 1 + depth_from(posts, posts[j].id, posts.len()),
        (exists|j: int| 0 <= j < posts.len() && (#[trigger] posts[j]).parent == Some(id)) ==> exists|j: int|
            0 <= j < posts.len() && (#[trigger] posts[j]).parent == Some(id)
                && depth_from(posts, id, posts.len()) == 1 + depth_from(posts, posts[j].id, posts.len()),
        (forall|j: int| 0 <= j < posts.len() ==> (#[trigger] posts[j]).parent != Some(id)) ==> depth_from(posts, id, posts.len()) == 0,
{
    let n = posts.len();
    if n > 0 {
        depth_is_the_longest_reply_chain(posts, id, n + 1);
        depth_is_one_more_than_the_deepest_reply(posts, id, n + 1);
    }
}

/// Where a root is reached at all, it is a post that replies to nothing.
proof fn lemma_chase_ends_at_a_root(posts: Seq<Post>, id: PostId, fuel: nat)
    ensures
        chase(posts, id, fuel) matches Some(r) ==> r.0 < posts.len() && posts[r.0 as int].parent is None,
    decreases fuel,
{
    if id.0 < posts.len() {
        if let Some(p) = posts[id.0 as int].parent {
            if fuel > 0 {
                lemma_chase_ends_at_a_root(posts, p, (fuel - 1) as nat);
            }
        }
    }
}

/// Where replies name earlier posts, a chase with at least as many links
/// as the handle reaches a root, and more links change nothing.
proof fn lemma_chase_settles(posts: Seq<Post>, id: PostId, f: nat, g: nat)
    requires
        replies_look_back(posts),
        id.0 < posts.len(),
        f >= id.0,
        g >= id.0,
    ensures
        chase(posts, id, f) is Some,
        chase(posts, id, f) == chase(posts, id, g),
    decreases id.0,
{
    assert(posts[id.0 as int].id == id);
    if let Some(p) = posts[id.0 as int].parent {
        assert(p.0 < id.0);
        lemma_chase_settles(posts, p, (f - 1) as nat, (g - 1) as nat);
    }
}

/// Thread roots: the root of a post is a post that replies to nothing; a
/// post that replies to nothing is its own root; and, where replies name
/// earlier posts, every post has a root, the same as the post it replies
/// to.
pub proof fn a_reply_shares_the_root_of_what_it_replies_to(posts: Seq<Post>, id: PostId)
    ensures
        root_in(posts, id) matches Some(r) ==> r.0 < posts.len() && posts[r.0 as int].parent is None,
        id.0 < posts.len() && posts[id.0 as int].parent is None ==> root_in(posts, id) == Some(id),
        replies_look_back(posts) && id.0 < posts.len() ==> root_in(posts, id) is Some,
        replies_look_back(posts) && id.0 < posts.len() ==> (posts[id.0 as int].parent matches Some(p) ==> root_in(posts, id) == root_in(posts, p)),
{
    lemma_chase_ends_at_a_root(posts, id, posts.len());
    if replies_look_back(posts) && id.0 < posts.len() {
        lemma_chase_settles(posts, id, posts.len(), posts.len());
        if let Some(p) = posts[id.0 as int].parent {
            assert(posts[id.0 as int].id == id);
            assert(p.0 < id.0);
            lemma_chase_settles(posts, p, (posts.len() - 1) as nat, posts.len());
        }
    }
}

/// The recency order: a post registered at a later tick comes first, posts
/// registered at the same tick come larger handle first, and of any two
/// posts one comes no later than the other.
pub proof fn the_feed_puts_the_most_recent_first(posts: Seq<Post>, a: PostId, b: PostId)
    ensures
        posts[a.0 as int].at > posts[b.0 as int].at ==> newer_or_same(posts, a, b) && !newer_or_same(posts, b, a),
        posts[a.0 as int].at == posts[b.0 as int].at && a.0 > b.0 ==> newer_or_same(posts, a, b) && !newer_or_same(posts, b, a),
        newer_or_same(posts, a, b) || newer_or_same(posts, b, a),
        newer_or_same(posts, a, a),
{
}

impl Default for Forum {
    fn default() -> (f: Self)
        ensures
            f.all() == Seq::<Post>::empty(),
            f.now() == 0,
    {
        Forum::new()
    }
}

/// An emitted state at a terminus.
pub fn at(terminus: Position, record: Record) -> (e: Emitted)
    ensures
        e.terminus == terminus,
        e.record == record,
{
    Emitted { terminus, record }
}

/// How a feed is ordered. There is deliberately no `Top` and no `Best`:
/// each would be a verdict aggregated across agents.
#[derive(Debug, Clone, Copy, PartialEq, Eq, Structural)]
pub enum Order {
    /// Most recently registered first.
    Recent,
    /// Nearest first: least separation cost on the viewer's own graph.
    Near,
}

impl Default for Order {
    fn default() -> (o: Self)
        ensures
            o == Order::Recent,
    {
        Order::Recent
    }
}

/// Open a forum onto a square already in conversation: each utterance is
/// registered, in order, as a thread root spoken by its voice at its
/// terminus, with a fresh record and no measured act. Returns the handles.
pub fn open_square(forum: &mut Forum, square: &Square, utterances: &[Utterance]) -> (ids: Vec<PostId>)
    requires
        old(forum).all().len() + utterances@.len() < u64::MAX,
    ensures
        final(forum).now() == old(forum).now(),
        final(forum).all().len() == old(forum).all().len() + utterances@.len(),
        final(forum).all().take(old(forum).all().len() as int) == old(forum).all(),
        ids@.len() == utterances@.len(),
        forall|k: int| 0 <= k < utterances@.len() ==> {
            let p = #[trigger] final(forum).all()[old(forum).all().len() + k];
            let u = utterances@[k];
            &&& ids@[k] == PostId((old(forum).all().len() + k) as u64)
            &&& p.id == ids@[k]
            &&& p.parent is None
            &&& p.speaker == Speaker::Voice(u.voice)
            &&& p.body@ == utterance_text(square.regions(), u)
            &&& p.emitted.terminus == u.terminus
            &&& p.emitted.record.count() == 0
            &&& p.at == old(forum).now()
            &&& p.act is None
        },
{
    let ghost n0 = forum.all().len();
    let mut ids: Vec<PostId> = Vec::new();
    let mut k: usize = 0;
    while k < utterances.len()
        invariant
            n0 == old(forum).all().len(),
            n0 + utterances@.len() < u64::MAX,
            k <= utterances@.len(),
            forum.now() == old(forum).now(),
            forum.all().len() == n0 + k,
            forum.all().take(n0 as int) == old(forum).all(),
            ids@.len() == k,
            forall|j: int| 0 <= j < k ==> {
                let p = #[trigger] forum.all()[n0 + j];
                let u = utterances@[j];
                &&& ids@[j] == PostId((n0 + j) as u64)
                &&& p.id == ids@[j]
                &&& p.parent is None
                &&& p.speaker == Speaker::Voice(u.voice)
                &&& p.body@ == utterance_text(square.regions(), u)
                &&& p.emitted.terminus == u.terminus
                &&& p.emitted.record.count() == 0
                &&& p.at == old(forum).now()
                &&& p.act is None
            },
        decreases utterances@.len() - k,
    {
        let u = utterances[k];
        let body = utterance_body(square, &u);
        let ghost before = forum.all();
        let id = forum.register(None, Speaker::Voice(u.voice), body.as_str(), at(u.terminus, Record::new()), None);
        ids.push(id);
        proof {
            assert forall|j: int| 0 <= j < k implies #[trigger] forum.all()[n0 + j] == before[n0 + j] by {
                assert(forum.all().take(before.len() as int)[n0 + j] == before[n0 + j]);
            }
            assert(forum.all().take(n0 as int) =~= before.take(n0 as int)) by {
                assert forall|j: int| 0 <= j < n0 implies forum.all().take(n0 as int)[j] == before.take(n0 as int)[j] by {
                    assert(forum.all().take(before.len() as int)[j] == before[j]);
                }
            }
        }
        k += 1;
    }
    ids
}

/// One answer of a round, ready to post: who spoke, what was said, the
/// position it was about, and what the exchange did to the gaps.
#[derive(Debug, Clone)]
pub struct Answer {
    /// Who answered.
    pub speaker: Speaker,
    /// What was said. Never read.
    pub body: String,
    /// The position the question was about.
    pub about: Position,
    /// The classified act of the exchange.
    pub act: Act,
}

/// Post a round into the forum as a thread: the first answer opens it and
/// every other replies to that first post. Each carries its act, measured,
/// and a fresh record at the position it was about. Returns the handles.
pub fn post_round(forum: &mut Forum, answers: Vec<Answer>) -> (ids: Vec<PostId>)
    requires
        old(forum).all().len() + answers@.len() < u64::MAX,
    ensures
        final(forum).now() == old(forum).now(),
        final(forum).all().len() == old(forum).all().len() + answers@.len(),
        final(forum).all().take(old(forum).all().len() as int) == old(forum).all(),
        ids@.len() == answers@.len(),
        forall|k: int| 0 <= k < answers@.len() ==> {
            let p = #[trigger] final(forum).all()[old(forum).all().len() + k];
            let a = answers@[k];
            &&& ids@[k] == PostId((old(forum).all().len() + k) as u64)
            &&& p.id == ids@[k]
            &&& p.parent == if k == 0 { None } else { Some(ids@[0]) }
            &&& p.speaker == a.speaker
            &&& p.body@ == a.body@
            &&& p.emitted.terminus == a.about
            &&& p.emitted.record.count() == 0
            &&& p.at == old(forum).now()
            &&& p.act == Some(a.act)
        },
{
    let ghost n0 = forum.all().len();
    let ghost all = answers@;
    assert(all.len() == answers.len());
    let mut ids: Vec<PostId> = Vec::new();
    let mut root: Option<PostId> = None;
    let mut rest = answers;
    let mut k: usize = 0;
    while rest.len() > 0
        invariant
            n0 == old(forum).all().len(),
            n0 + all.len() < u64::MAX,
            all.len() <= usize::MAX,
            k + rest@.len() == all.len(),
            rest@ == all.skip(k as int),
            forum.now() == old(forum).now(),
            forum.all().len() == n0 + k,
            forum.all().take(n0 as int) == old(forum).all(),
            ids@.len() == k,
            root == if k == 0 { None } else { Some(ids@[0]) },
            forall|j: int| 0 <= j < k ==> {
                let p = #[trigger] forum.all()[n0 + j];
                let a = all[j];
                &&& ids@[j] == PostId((n0 + j) as u64)
                &&& p.id == ids@[j]
                &&& p.parent == if j == 0 { None } else { Some(ids@[0]) }
                &&& p.speaker == a.speaker
                &&& p.body@ == a.body@
                &&& p.emitted.terminus == a.about
                &&& p.emitted.record.count() == 0
                &&& p.at == old(forum).now()
                &&& p.act == Some(a.act)
            },
        decreases rest@.len(),
    {
        let a = rest.remove(0);
        proof {
            assert(a == all[k as int]);
        }
        let ghost before = forum.all();
        let id = forum.register(root, a.speaker, a.body.as_str(), at(a.about, Record::new()), Some(a.act));
        ids.push(id);
        if root.is_none() {
            root = Some(id);
        }
        proof {
            assert forall|j: int| 0 <= j < k implies #[trigger] forum.all()[n0 + j] == before[n0 + j] by {
                assert(forum.all().take(before.len() as int)[n0 + j] == before[n0 + j]);
            }
            assert(forum.all().take(n0 as int) =~= before.take(n0 as int)) by {
                assert forall|j: int| 0 <= j < n0 implies forum.all().take(n0 as int)[j] == before.take(n0 as int)[j] by {
                    assert(forum.all().take(before.len() as int)[j] == before[j]);
                }
            }
        }
        k += 1;
    }
    ids
}

/// Whether post `a` comes no later than post `b` in a feed ordered most
/// recent first: registered at a later tick, or at the same tick with a
/// handle no smaller.
pub open spec fn newer_or_same(posts: Seq<Post>, a: PostId, b: PostId) -> bool {
    posts[a.0 as int].at > posts[b.0 as int].at || (posts[a.0 as int].at == posts[b.0 as int].at && a.0 >= b.0)
}

impl Forum {
    /// The posts `ids` ordered most recently registered first, ties broken
    /// by the larger handle: the order of a recency feed. Every handle must
    /// name a post.
    pub fn newest_first(&self, ids: &[PostId]) -> (r: Vec<PostId>)
        requires
            forall|i: int| 0 <= i < ids@.len() ==> (#[trigger] ids@[i]).0 < self.all().len(),
        ensures
            r@.to_multiset() == ids@.to_multiset(),
            forall|i: int, j: int| 0 <= i < j < r@.len() ==> newer_or_same(self.all(), #[trigger] r@[i], #[trigger] r@[j]),
    {
        proof { use_type_invariant(self); }
        let ghost ps = self.all();
        let mut r: Vec<PostId> = Vec::new();
        proof {
            assert(ids@.take(0) =~= Seq::<PostId>::empty());
            r@.to_multiset_ensures();
            ids@.take(0).to_multiset_ensures();
            assert(r@.to_multiset() =~= ids@.take(0).to_multiset());
        }
        let mut k: usize = 0;
        while k < ids.len()
            invariant
                ps == self.all(),
                forall|i: int| 0 <= i < ids@.len() ==> (#[trigger] ids@[i]).0 < ps.len(),
                k <= ids@.len(),
                r@.to_multiset() == ids@.take(k as int).to_multiset(),
                forall|i: int| 0 <= i < r@.len() ==> (#[trigger] r@[i]).0 < ps.len(),
                forall|i: int, j: int| 0 <= i < j < r@.len() ==> newer_or_same(ps, #[trigger] r@[i], #[trigger] r@[j]),
            decreases ids@.len() - k,
        {
            let x = ids[k];
            let xat = self.at_of(x);
            let mut p: usize = 0;
            while p < r.len() && newer_or_same_exec(self.at_of(r[p]), r[p], xat, x)
                invariant
                    ps == self.all(),
                    x.0 < ps.len(),
                    xat == ps[x.0 as int].at,
                    p <= r@.len(),
                    forall|i: int| 0 <= i < r@.len() ==> (#[trigger] r@[i]).0 < ps.len(),
                    forall|i: int| 0 <= i < p ==> newer_or_same(ps, #[trigger] r@[i], x),
                decreases r@.len() - p,
            {
                p += 1;
            }
            let ghost before = r@;
            r.insert(p, x);
            proof {
                assert(r@ =~= before.insert(p as int, x));
                assert(r@.to_multiset() =~= before.to_multiset().insert(x)) by {
                    before.to_multiset_ensures();
                    r@.to_multiset_ensures();
                    assert(before.insert(p as int, x) =~= before.take(p as int).push(x) + before.skip(p as int));
                    vstd::seq_lib::lemma_multiset_commutative(before.take(p as int).push(x), before.skip(p as int));
                    vstd::seq_lib::lemma_multiset_commutative(before.take(p as int), before.skip(p as int));
                    assert(before =~= before.take(p as int) + before.skip(p as int));
                    before.take(p as int).to_multiset_ensures();
                }
                assert(ids@.take(k + 1) =~= ids@.take(k as int).push(x));
                ids@.take(k as int).to_multiset_ensures();
                assert forall|i: int, j: int| 0 <= i < j < r@.len() implies newer_or_same(ps, #[trigger] r@[i], #[trigger] r@[j]) by {
                    if j < p {
                        assert(r@[i] == before[i] && r@[j] == before[j]);
                    } else if j == p {
                        assert(r@[i] == before[i]);
                    } else if i < p {
                        assert(r@[i] == before[i] && r@[j] == before[j - 1]);
                        assert(newer_or_same(ps, before[i], x));
                        assert(!newer_or_same(ps, before[p as int], x));
                        if i < p {
                            assert(newer_or_same(ps, before[i], before[j - 1]));
                        }
                    } else if i == p {
                        assert(r@[j] == before[j - 1]);
                        assert(!newer_or_same(ps, before[p as int], x));
                        if j - 1 > p {
                            assert(newer_or_same(ps, before[p as int], before[j - 1]));
                        }
                    } else {
                        assert(r@[i] == before[i - 1] && r@[j] == before[j - 1]);
                    }
                }
            }
            k += 1;
        }
        assert(ids@.take(ids@.len() as int) =~= ids@);
        r
    }
}

impl Forum {
    fn at_of(&self, id: PostId) -> (t: u64)
        requires
            id.0 < self.all().len(),
        ensures
            t == self.all()[id.0 as int].at,
    {
        let n = self.posts.len();
        assert(id.0 < n);
        let i = id.0 as usize;
        self.posts[i].at
    }
}

fn newer_or_same_exec(a_at: u64, a: PostId, b_at: u64, b: PostId) -> (r: bool)
    ensures
        r == (a_at > b_at || (a_at == b_at && a.0 >= b.0)),
{
    a_at > b_at || (a_at == b_at && a.0 >= b.0)
}

} // verus!
