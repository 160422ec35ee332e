//! The subscription store: the set of chat subscriptions, each a triple of
//! destination, tag filter and owner. Two subscriptions are the same entry
//! exactly when all three fields agree; the store never holds the same
//! triple twice.

use vstd::prelude::*;
use crate::strutil::str_eq;

verus! {

/// One chat subscription: post images matching `filter` to the destination
/// `chat_name`, on behalf of the user `requester`.
pub struct Chat {
    pub chat_name: String,
    pub filter: String,
    pub requester: i64,
}

/// The mathematical value of a subscription.
pub ghost struct ChatView {
    pub chat_name: Seq<char>,
    pub filter: Seq<char>,
    pub requester: int,
}

impl View for Chat {
    type V = ChatView;

    open spec fn view(&self) -> ChatView {
        ChatView {
            chat_name: self.chat_name@,
            filter: self.filter@,
            requester: self.requester as int,
        }
    }
}

impl Chat {
    /// Builds a subscription from its three fields.
    pub fn new(name: &str, re: &str, requester: i64) -> (c: Chat)
        ensures
            c@ == chat_view(name@, re@, requester as int),
    {
        Chat { chat_name: name.to_owned(), filter: re.to_owned(), requester }
    }
}

impl Clone for Chat {
    fn clone(&self) -> (c: Self)
        ensures
            c@ == self@,
    {
        Chat {
            chat_name: self.chat_name.clone(),
            filter: self.filter.clone(),
            requester: self.requester,
        }
    }
}

/// The view of a subscription assembled from plain values.
pub open spec fn chat_view(name: Seq<char>, filt: Seq<char>, requester: int) -> ChatView {
    ChatView { chat_name: name, filter: filt, requester }
}

/// The views of a list of subscriptions, in order.
pub open spec fn chats_view(v: Seq<Chat>) -> Seq<ChatView> {
    Seq::new(v.len(), |i: int| v[i]@)
}

/// Field-wise equality of two subscriptions.
pub fn chat_eq(a: &Chat, b: &Chat) -> (r: bool)
    ensures
        r == (a@ == b@),
{
    str_eq(a.chat_name.as_str(), b.chat_name.as_str()) && str_eq(
        a.filter.as_str(),
        b.filter.as_str(),
    ) && a.requester == b.requester
}

/// No entry occurs twice.
pub open spec fn distinct_seq(s: Seq<ChatView>) -> bool {
    forall|i: int, j: int| 0 <= i < j < s.len() ==> s[i] != s[j]
}

/// What adding a subscription does: a no-op when the triple is already
/// present, an append otherwise.
pub open spec fn add_spec(s: Seq<ChatView>, t: ChatView) -> Seq<ChatView> {
    if s.contains(t) {
        s
    } else {
        s.push(t)
    }
}

/// What removing one exact triple does: every occurrence of `t` leaves,
/// everything else stays, in order.
pub open spec fn remove_spec(s: Seq<ChatView>, t: ChatView) -> Seq<ChatView>
    decreases s.len(),
{
    if s.len() == 0 {
        s
    } else if s.last() == t {
        remove_spec(s.drop_last(), t)
    } else {
        remove_spec(s.drop_last(), t).push(s.last())
    }
}

/// Does a removal of everything an owner has in a destination keep this
/// subscription?
pub open spec fn keeps_sub(c: ChatView, name: Seq<char>, owner: int) -> bool {
    !(c.chat_name == name && c.requester == owner)
}

/// What removing every subscription of one owner in one destination does:
/// the entries whose destination and owner both match leave, whatever
/// their filter; everything else stays, in order.
pub open spec fn remove_all_spec(s: Seq<ChatView>, name: Seq<char>, owner: int) -> Seq<ChatView>
    decreases s.len(),
{
    if s.len() == 0 {
        s
    } else if keeps_sub(s.last(), name, owner) {
        remove_all_spec(s.drop_last(), name, owner).push(s.last())
    } else {
        remove_all_spec(s.drop_last(), name, owner)
    }
}

/// Pushing never removes what a sequence contains.
proof fn lemma_contains_after_push(s: Seq<ChatView>, x: ChatView, y: ChatView)
    requires
        s.contains(y),
    ensures
        s.push(x).contains(y),
{
    let k = choose|k: int| 0 <= k < s.len() && s[k] == y;
    assert(s.push(x)[k] == y);
}

/// How `remove_spec` treats one more element at the end.
proof fn lemma_remove_spec_push(s: Seq<ChatView>, x: ChatView, t: ChatView)
    ensures
        remove_spec(s.push(x), t) == if x != t {
            remove_spec(s, t).push(x)
        } else {
            remove_spec(s, t)
        },
{
    assert(s.push(x).drop_last() =~= s);
    assert(s.push(x).last() == x);
}

/// How `remove_all_spec` treats one more element at the end.
proof fn lemma_remove_all_spec_push(s: Seq<ChatView>, x: ChatView, name: Seq<char>, owner: int)
    ensures
        remove_all_spec(s.push(x), name, owner) == if keeps_sub(x, name, owner) {
            remove_all_spec(s, name, owner).push(x)
        } else {
            remove_all_spec(s, name, owner)
        },
{
    assert(s.push(x).drop_last() =~= s);
    assert(s.push(x).last() == x);
}

/// Everything `remove_spec` keeps was in the sequence.
pub proof fn lemma_remove_spec_subset(s: Seq<ChatView>, t: ChatView)
    ensures
        forall|i: int|
            0 <= i < remove_spec(s, t).len() ==> s.contains(#[trigger] remove_spec(s, t)[i]),
    decreases s.len(),
{
    if s.len() > 0 {
        let d = s.drop_last();
        lemma_remove_spec_subset(d, t);
        assert forall|i: int| 0 <= i < remove_spec(s, t).len() implies s.contains(
            #[trigger] remove_spec(s, t)[i],
        ) by {
            if s.last() != t && i == remove_spec(s, t).len() - 1 {
                assert(s[s.len() - 1] == remove_spec(s, t)[i]);
            } else {
                assert(remove_spec(s, t)[i] == remove_spec(d, t)[i]);
                assert(d.contains(remove_spec(d, t)[i]));
                let k = choose|k: int| 0 <= k < d.len() && d[k] == remove_spec(s, t)[i];
                assert(s[k] == remove_spec(s, t)[i]);
            }
        }
    }
}

/// `remove_spec` removes every occurrence of the triple.
pub proof fn lemma_remove_spec_gone(s: Seq<ChatView>, t: ChatView)
    ensures
        forall|i: int| 0 <= i < remove_spec(s, t).len() ==> #[trigger] remove_spec(s, t)[i] != t,
    decreases s.len(),
{
    if s.len() > 0 {
        let d = s.drop_last();
        lemma_remove_spec_gone(d, t);
        assert forall|i: int| 0 <= i < remove_spec(s, t).len() implies #[trigger] remove_spec(
            s,
            t,
        )[i] != t by {
            if s.last() != t && i == remove_spec(s, t).len() - 1 {
                assert(remove_spec(s, t)[i] == s.last());
            } else {
                assert(remove_spec(s, t)[i] == remove_spec(d, t)[i]);
            }
        }
    }
}

/// `remove_spec` keeps every entry other than the removed triple.
pub proof fn lemma_remove_spec_keeps(s: Seq<ChatView>, t: ChatView)
    ensures
        forall|i: int|
            0 <= i < s.len() && #[trigger] s[i] != t ==> remove_spec(s, t).contains(s[i]),
    decreases s.len(),
{
    if s.len() > 0 {
        let d = s.drop_last();
        lemma_remove_spec_keeps(d, t);
        assert forall|i: int| 0 <= i < s.len() && #[trigger] s[i] != t implies remove_spec(
            s,
            t,
        ).contains(s[i]) by {
            if i == s.len() - 1 {
                assert(remove_spec(s, t).last() == s[i]);
                assert(remove_spec(s, t).contains(s[i]));
            } else {
                assert(d[i] == s[i]);
                assert(remove_spec(d, t).contains(s[i]));
                if s.last() != t {
                    lemma_contains_after_push(remove_spec(d, t), s.last(), s[i]);
                }
            }
        }
    }
}

/// Removing a triple that is absent changes nothing.
pub proof fn lemma_remove_spec_absent(s: Seq<ChatView>, t: ChatView)
    requires
        !s.contains(t),
    ensures
        remove_spec(s, t) == s,
    decreases s.len(),
{
    if s.len() > 0 {
        let d = s.drop_last();
        assert(!d.contains(t)) by {
            if d.contains(t) {
                let k = choose|k: int| 0 <= k < d.len() && d[k] == t;
                assert(s[k] == t);
            }
        }
        lemma_remove_spec_absent(d, t);
        assert(s[s.len() - 1] != t);
        assert(remove_spec(s, t) =~= s);
    }
}

/// `remove_spec` keeps entries distinct.
proof fn lemma_remove_spec_distinct(s: Seq<ChatView>, t: ChatView)
    requires
        distinct_seq(s),
    ensures
        distinct_seq(remove_spec(s, t)),
    decreases s.len(),
{
    if s.len() > 0 {
        let d = s.drop_last();
        assert(distinct_seq(d));
        lemma_remove_spec_distinct(d, t);
        if s.last() != t {
            lemma_remove_spec_subset(d, t);
            let r = remove_spec(d, t);
            assert forall|i: int| 0 <= i < r.len() implies r[i] != s.last() by {
                let k = choose|k: int| 0 <= k < d.len() && d[k] == r[i];
                assert(s[k] != s[s.len() - 1]);
            }
            assert(distinct_seq(r.push(s.last())));
        }
    }
}

/// Everything `remove_all_spec` keeps was in the sequence.
pub proof fn lemma_remove_all_spec_subset(s: Seq<ChatView>, name: Seq<char>, owner: int)
    ensures
        forall|i: int|
            0 <= i < remove_all_spec(s, name, owner).len() ==> s.contains(
                #[trigger] remove_all_spec(s, name, owner)[i],
            ),
    decreases s.len(),
{
    if s.len() > 0 {
        let d = s.drop_last();
        lemma_remove_all_spec_subset(d, name, owner);
        assert forall|i: int| 0 <= i < remove_all_spec(s, name, owner).len() implies s.contains(
            #[trigger] remove_all_spec(s, name, owner)[i],
        ) by {
            let r = remove_all_spec(s, name, owner);
            if keeps_sub(s.last(), name, owner) && i == r.len() - 1 {
                assert(s[s.len() - 1] == r[i]);
            } else {
                assert(r[i] == remove_all_spec(d, name, owner)[i]);
                assert(d.contains(remove_all_spec(d, name, owner)[i]));
                let k = choose|k: int| 0 <= k < d.len() && d[k] == r[i];
                assert(s[k] == r[i]);
            }
        }
    }
}

/// `remove_all_spec` removes every entry of that owner and destination.
pub proof fn lemma_remove_all_spec_gone(s: Seq<ChatView>, name: Seq<char>, owner: int)
    ensures
        forall|i: int|
            0 <= i < remove_all_spec(s, name, owner).len() ==> keeps_sub(
                #[trigger] remove_all_spec(s, name, owner)[i],
                name,
                owner,
            ),
    decreases s.len(),
{
    if s.len() > 0 {
        let d = s.drop_last();
        lemma_remove_all_spec_gone(d, name, owner);
        assert forall|i: int| 0 <= i < remove_all_spec(s, name, owner).len() implies keeps_sub(
            #[trigger] remove_all_spec(s, name, owner)[i],
            name,
            owner,
        ) by {
            let r = remove_all_spec(s, name, owner);
            if keeps_sub(s.last(), name, owner) && i == r.len() - 1 {
                assert(r[i] == s.last());
            } else {
                assert(r[i] == remove_all_spec(d, name, owner)[i]);
            }
        }
    }
}

/// `remove_all_spec` keeps every entry of another owner or destination.
pub proof fn lemma_remove_all_spec_keeps(s: Seq<ChatView>, name: Seq<char>, owner: int)
    ensures
        forall|i: int|
            0 <= i < s.len() && keeps_sub(#[trigger] s[i], name, owner) ==> remove_all_spec(
                s,
                name,
                owner,
            ).contains(s[i]),
    decreases s.len(),
{
    if s.len() > 0 {
        let d = s.drop_last();
        lemma_remove_all_spec_keeps(d, name, owner);
        assert forall|i: int|
            0 <= i < s.len() && keeps_sub(#[trigger] s[i], name, owner) implies remove_all_spec(
            s,
            name,
            owner,
        ).contains(s[i]) by {
            if i == s.len() - 1 {
                assert(remove_all_spec(s, name, owner).last() == s[i]);
                assert(remove_all_spec(s, name, owner).contains(s[i]));
            } else {
                assert(d[i] == s[i]);
                assert(remove_all_spec(d, name, owner).contains(s[i]));
                if keeps_sub(s.last(), name, owner) {
                    lemma_contains_after_push(
                        remove_all_spec(d, name, owner),
                        s.last(),
                        s[i],
                    );
                }
            }
        }
    }
}

/// `remove_all_spec` keeps entries distinct.
proof fn lemma_remove_all_spec_distinct(s: Seq<ChatView>, name: Seq<char>, owner: int)
    requires
        distinct_seq(s),
    ensures
        distinct_seq(remove_all_spec(s, name, owner)),
    decreases s.len(),
{
    if s.len() > 0 {
        let d = s.drop_last();
        assert(distinct_seq(d));
        lemma_remove_all_spec_distinct(d, name, owner);
        if keeps_sub(s.last(), name, owner) {
            lemma_remove_all_spec_subset(d, name, owner);
            let r = remove_all_spec(d, name, owner);
            assert forall|i: int| 0 <= i < r.len() implies r[i] != s.last() by {
                let k = choose|k: int| 0 <= k < d.len() && d[k] == r[i];
                assert(s[k] != s[s.len() - 1]);
            }
            assert(distinct_seq(r.push(s.last())));
        }
    }
}

/// The set of chat subscriptions, with no triple held twice.
pub struct SubscriptionStore {
    chats: Vec<Chat>,
}

impl View for SubscriptionStore {
    type V = Seq<ChatView>;

    closed spec fn view(&self) -> Seq<ChatView> {
        chats_view(self.chats@)
    }
}

impl SubscriptionStore {
    /// The store invariant: no duplicate triples.
    pub open spec fn wf(&self) -> bool {
        distinct_seq(self@)
    }

    /// An empty store.
    pub fn new() -> (s: SubscriptionStore)
        ensures
            s@ == Seq::<ChatView>::empty(),
            s.wf(),
    {
        let s = SubscriptionStore { chats: Vec::new() };
        proof {
            assert(s@ =~= Seq::<ChatView>::empty());
        }
        s
    }

    /// Builds a store from a list of subscriptions, dropping duplicates.
    pub fn from_entries(entries: Vec<Chat>) -> (s: SubscriptionStore)
        ensures
            s.wf(),
            forall|i: int| 0 <= i < entries@.len() ==> s@.contains(#[trigger] entries@[i]@),
            forall|i: int|
                0 <= i < s@.len() ==> chats_view(entries@).contains(#[trigger] s@[i]),
    {
        let mut s = SubscriptionStore::new();
        let mut i: usize = 0;
        while i < entries.len()
            invariant
                0 <= i <= entries@.len(),
                s.wf(),
                forall|j: int| 0 <= j < i ==> s@.contains(#[trigger] entries@[j]@),
                forall|k: int|
                    0 <= k < s@.len() ==> chats_view(entries@).contains(#[trigger] s@[k]),
            decreases entries@.len() - i,
        {
            let ghost prev = s@;
            let ghost ev = entries@[i as int]@;
            s.add(entries[i].clone());
            proof {
                if !prev.contains(ev) {
                    assert(s@ == prev.push(ev));
                    assert forall|j: int| 0 <= j < i + 1 implies s@.contains(
                        #[trigger] entries@[j]@,
                    ) by {
                        if j < i {
                            lemma_contains_after_push(prev, ev, entries@[j]@);
                        } else {
                            assert(s@[prev.len() as int] == ev);
                        }
                    }
                    assert forall|k: int| 0 <= k < s@.len() implies chats_view(
                        entries@,
                    ).contains(#[trigger] s@[k]) by {
                        if k == s@.len() - 1 {
                            assert(chats_view(entries@)[i as int] == ev);
                        }
                    }
                } else {
                    assert(s@ == prev);
                    assert(s@.contains(entries@[i as int]@));
                }
            }
            i = i + 1;
        }
        s
    }

    /// How many subscriptions the store holds.
    pub fn len(&self) -> (n: usize)
        ensures
            n == self@.len(),
    {
        self.chats.len()
    }

    /// A read-only view of the current subscriptions, for the dispatcher.
    pub fn snapshot(&self) -> (chats: &Vec<Chat>)
        ensures
            chats@.len() == self@.len(),
            forall|i: int| 0 <= i < self@.len() ==> #[trigger] chats@[i]@ == self@[i],
    {
        &self.chats
    }

    /// Is this exact triple subscribed?
    pub fn contains_chat(&self, c: &Chat) -> (r: bool)
        ensures
            r == self@.contains(c@),
    {
        let mut i: usize = 0;
        while i < self.chats.len()
            invariant
                0 <= i <= self@.len(),
                self@.len() == self.chats@.len(),
                forall|j: int| 0 <= j < i ==> self@[j] != c@,
            decreases self@.len() - i,
        {
            if chat_eq(&self.chats[i], c) {
                proof {
                    assert(self@[i as int] == c@);
                }
                return true;
            }
            i = i + 1;
        }
        false
    }

    /// Inserts a subscription; a no-op when the same triple is present.
    pub fn add(&mut self, chat: Chat)
        requires
            old(self).wf(),
        ensures
            final(self).wf(),
            final(self)@ == add_spec(old(self)@, chat@),
    {
        if !self.contains_chat(&chat) {
            let ghost prev = self@;
            let ghost cv = chat@;
            self.chats.push(chat);
            proof {
                assert(self@ =~= prev.push(cv));
                assert forall|i: int, j: int| 0 <= i < j < self@.len() implies self@[i]
                    != self@[j] by {
                    if j == self@.len() - 1 {
                        assert(!prev.contains(cv));
                        assert(prev[i] == self@[i]);
                    }
                }
            }
        }
    }

    /// Removes the exact triple, reporting whether it was present.
    pub fn remove(&mut self, chat_name: &str, filt: &str, requester: i64) -> (removed: bool)
        requires
            old(self).wf(),
        ensures
            final(self).wf(),
            removed == old(self)@.contains(chat_view(chat_name@, filt@, requester as int)),
            final(self)@ == remove_spec(
                old(self)@,
                chat_view(chat_name@, filt@, requester as int),
            ),
    {
        let target = Chat::new(chat_name, filt, requester);
        let removed = self.contains_chat(&target);
        let ghost t = target@;
        let mut kept: Vec<Chat> = Vec::new();
        let mut i: usize = 0;
        proof {
            assert(chats_view(kept@) =~= remove_spec(self@.subrange(0, 0), t));
        }
        while i < self.chats.len()
            invariant
                0 <= i <= self@.len(),
                self@.len() == self.chats@.len(),
                t == chat_view(chat_name@, filt@, requester as int),
                target@ == t,
                chats_view(kept@) == remove_spec(self@.subrange(0, i as int), t),
            decreases self@.len() - i,
        {
            let ghost prefix = self@.subrange(0, i as int);
            let ghost kv0 = chats_view(kept@);
            let c = self.chats[i].clone();
            proof {
                assert(c@ == self@[i as int]);
            }
            if !chat_eq(&c, &target) {
                kept.push(c);
                proof {
                    assert(chats_view(kept@) =~= kv0.push(self@[i as int]));
                }
            }
            proof {
                lemma_remove_spec_push(prefix, self@[i as int], t);
                assert(self@.subrange(0, i + 1 as int) =~= prefix.push(self@[i as int]));
                assert(chats_view(kept@) =~= remove_spec(self@.subrange(0, i + 1 as int), t));
            }
            i = i + 1;
        }
        proof {
            assert(self@.subrange(0, self@.len() as int) =~= self@);
            lemma_remove_spec_distinct(self@, t);
        }
        self.chats = kept;
        removed
    }

    /// Removes every subscription with this destination and owner,
    /// whatever its filter.
    pub fn remove_all(&mut self, chat_name: &str, requester: i64)
        requires
            old(self).wf(),
        ensures
            final(self).wf(),
            final(self)@ == remove_all_spec(old(self)@, chat_name@, requester as int),
    {
        let ghost name = chat_name@;
        let ghost owner = requester as int;
        let mut kept: Vec<Chat> = Vec::new();
        let mut i: usize = 0;
        proof {
            assert(chats_view(kept@) =~= remove_all_spec(self@.subrange(0, 0), name, owner));
        }
        while i < self.chats.len()
            invariant
                0 <= i <= self@.len(),
                self@.len() == self.chats@.len(),
                name == chat_name@,
                owner == requester as int,
                chats_view(kept@) == remove_all_spec(self@.subrange(0, i as int), name, owner),
            decreases self@.len() - i,
        {
            let ghost prefix = self@.subrange(0, i as int);
            let ghost kv0 = chats_view(kept@);
            let c = self.chats[i].clone();
            proof {
                assert(c@ == self@[i as int]);
            }
            let matches_target = str_eq(c.chat_name.as_str(), chat_name) && c.requester
                == requester;
            proof {
                assert(matches_target == !keeps_sub(self@[i as int], name, owner));
            }
            if !matches_target {
                kept.push(c);
                proof {
                    assert(chats_view(kept@) =~= kv0.push(self@[i as int]));
                }
            }
            proof {
                lemma_remove_all_spec_push(prefix, self@[i as int], name, owner);
                assert(self@.subrange(0, i + 1 as int) =~= prefix.push(self@[i as int]));
                assert(chats_view(kept@) =~= remove_all_spec(
                    self@.subrange(0, i + 1 as int),
                    name,
                    owner,
                ));
            }
            i = i + 1;
        }
        proof {
            assert(self@.subrange(0, self@.len() as int) =~= self@);
            lemma_remove_all_spec_distinct(self@, name, owner);
        }
        self.chats = kept;
    }
}

/// Law: adding a subscription then removing the same triple succeeds and
/// leaves the store without it; removing a never-added triple reports
/// failure and removes nothing.
pub proof fn lemma_add_remove_round_trip(s: Seq<ChatView>, t: ChatView)
    ensures
        add_spec(s, t).contains(t),
        remove_spec(add_spec(s, t), t) == remove_spec(s, t),
        !s.contains(t) ==> remove_spec(s, t) == s,
{
    if !s.contains(t) {
        assert(s.push(t)[s.len() as int] == t);
        lemma_remove_spec_push(s, t, t);
        lemma_remove_spec_absent(s, t);
    }
}

/// Law: removing all subscriptions of one owner in one destination removes
/// exactly the matching entries and keeps every other entry.
pub proof fn lemma_remove_all_exact(s: Seq<ChatView>, name: Seq<char>, owner: int)
    ensures
        forall|i: int|
            0 <= i < remove_all_spec(s, name, owner).len() ==> keeps_sub(
                #[trigger] remove_all_spec(s, name, owner)[i],
                name,
                owner,
            ) && s.contains(remove_all_spec(s, name, owner)[i]),
        forall|i: int|
            0 <= i < s.len() && keeps_sub(#[trigger] s[i], name, owner) ==> remove_all_spec(
                s,
                name,
                owner,
            ).contains(s[i]),
{
    lemma_remove_all_spec_gone(s, name, owner);
    lemma_remove_all_spec_subset(s, name, owner);
    lemma_remove_all_spec_keeps(s, name, owner);
}

} // verus!
