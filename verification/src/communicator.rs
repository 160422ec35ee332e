//! The command-polling side: the inbound update records, cursor
//! advancement, `/add` and `/remove` command handling against the
//! subscription store, the outgoing replies, and the planning of photo
//! deliveries for freshly discovered images. All network traffic happens
//! outside the library; this module turns values into values.

use vstd::prelude::*;
use vstd::string::StringExecFns;
use crate::store::{
    SubscriptionStore, ChatView, Chat, chat_view, add_spec, remove_spec, remove_all_spec,
    distinct_seq,
};
use crate::strutil::{
    append_i64, dec_int, i64_to_string, split_seq, split_char, starts_with_seq, starts_with_str,
    lemma_split_seq_nonempty,
};
use crate::filter::{tags_fit, get_artist};
use crate::images::{ImageResponse, ImageView, imgs_view};

verus! {

/// The sender of an inbound message.
pub struct User {
    pub id: i64,
}

/// The chat an inbound message was posted in.
pub struct ServerChat {
    pub id: i64,
}

/// One inbound chat message.
pub struct Message {
    pub from: User,
    pub message_id: i64,
    pub chat: ServerChat,
    pub text: Option<String>,
}

/// The mathematical value of an inbound message.
pub ghost struct MessageView {
    pub from_id: int,
    pub message_id: int,
    pub chat_id: int,
    pub text: Option<Seq<char>>,
}

impl View for Message {
    type V = MessageView;

    open spec fn view(&self) -> MessageView {
        MessageView {
            from_id: self.from.id as int,
            message_id: self.message_id as int,
            chat_id: self.chat.id as int,
            text: match self.text {
                Some(t) => Some(t@),
                None => None,
            },
        }
    }
}

impl Clone for Message {
    fn clone(&self) -> (m: Self)
        ensures
            m@ == self@,
    {
        Message {
            from: User { id: self.from.id },
            message_id: self.message_id,
            chat: ServerChat { id: self.chat.id },
            text: match &self.text {
                Some(t) => Some(t.clone()),
                None => None,
            },
        }
    }
}

/// One update of the inbound feed: a cursor position and possibly a
/// message.
pub struct Update {
    pub update_id: i64,
    pub message: Option<Message>,
}

/// The mathematical value of one update.
pub ghost struct UpdateView {
    pub update_id: int,
    pub message: Option<MessageView>,
}

impl View for Update {
    type V = UpdateView;

    open spec fn view(&self) -> UpdateView {
        UpdateView {
            update_id: self.update_id as int,
            message: match self.message {
                Some(m) => Some(m@),
                None => None,
            },
        }
    }
}

/// The views of a list of updates, in order.
pub open spec fn updates_view(v: Seq<Update>) -> Seq<UpdateView> {
    Seq::new(v.len(), |i: int| v[i]@)
}

/// The views of a list of messages, in order.
pub open spec fn messages_view(v: Seq<Message>) -> Seq<MessageView> {
    Seq::new(v.len(), |i: int| v[i]@)
}

/// A reply of the update feed: a status flag and the updates.
pub struct Reply {
    pub ok: bool,
    pub result: Vec<Update>,
}

/// One outgoing text message: a reply owed to a chat.
pub struct Outgoing {
    pub chat_id: i64,
    pub text: String,
}

/// The mathematical value of one outgoing reply.
pub ghost struct OutgoingView {
    pub chat_id: int,
    pub text: Seq<char>,
}

impl View for Outgoing {
    type V = OutgoingView;

    open spec fn view(&self) -> OutgoingView {
        OutgoingView { chat_id: self.chat_id as int, text: self.text@ }
    }
}

/// The views of a list of outgoing replies, in order.
pub open spec fn outgoing_view(v: Seq<Outgoing>) -> Seq<OutgoingView> {
    Seq::new(v.len(), |i: int| v[i]@)
}

/// The views of a list of key-value pairs of string slices.
pub open spec fn pairs_view(s: Seq<(&str, &str)>) -> Seq<(Seq<char>, Seq<char>)> {
    Seq::new(s.len(), |i: int| (s[i].0@, s[i].1@))
}

/// The views of a list of string slices.
pub open spec fn strs_view(s: Seq<&str>) -> Seq<Seq<char>> {
    Seq::new(s.len(), |i: int| s[i]@)
}

/// Query arguments joined as `key=value` pairs separated by `&`.
pub open spec fn args_joined(args: Seq<(Seq<char>, Seq<char>)>) -> Seq<char>
    decreases args.len(),
{
    if args.len() == 0 {
        Seq::empty()
    } else if args.len() == 1 {
        args[0].0 + seq!['='] + args[0].1
    } else {
        args_joined(args.drop_last()) + seq!['&'] + args.last().0 + seq!['='] + args.last().1
    }
}

/// A joined argument list is never empty when there are arguments.
proof fn lemma_args_joined_nonempty(args: Seq<(Seq<char>, Seq<char>)>)
    requires
        args.len() > 0,
    ensures
        args_joined(args).len() > 0,
    decreases args.len(),
{
    if args.len() > 1 {
        lemma_args_joined_nonempty(args.drop_last());
    }
}

/// The full request URL of one method call against the messaging API.
pub open spec fn url_spec(
    token: Seq<char>,
    method: Seq<char>,
    args: Seq<(Seq<char>, Seq<char>)>,
) -> Seq<char> {
    "https://api.telegram.org/bot"@ + token + "/"@ + method + if args.len() == 0 {
        Seq::<char>::empty()
    } else {
        seq!['?'] + args_joined(args)
    }
}

/// The items of a JSON string array, quoted and comma-separated.
pub open spec fn json_items(args: Seq<Seq<char>>) -> Seq<char>
    decreases args.len(),
{
    if args.len() == 0 {
        Seq::empty()
    } else if args.len() == 1 {
        seq!['"'] + args[0] + seq!['"']
    } else {
        json_items(args.drop_last()) + seq![',', ' '] + seq!['"'] + args.last() + seq!['"']
    }
}

/// A JSON array of string literals.
pub open spec fn json_array_spec(args: Seq<Seq<char>>) -> Seq<char> {
    seq!['['] + json_items(args) + seq![']']
}

/// Renders a list of strings as a JSON array literal, as the update feed
/// expects for its `allowed_updates` argument.
pub fn json_array(args: &[&str]) -> (r: String)
    ensures
        r@ == json_array_spec(strs_view(args@)),
{
    let ghost av = strs_view(args@);
    let mut items = String::new();
    let mut i: usize = 0;
    proof {
        assert(items@ =~= json_items(av.subrange(0, 0)));
    }
    while i < args.len()
        invariant
            0 <= i <= args@.len(),
            av == strs_view(args@),
            av.len() == args@.len(),
            items@ == json_items(av.subrange(0, i as int)),
        decreases args@.len() - i,
    {
        if i > 0 {
            items.append(", ");
        }
        items.append("\"");
        items.append(args[i]);
        items.append("\"");
        proof {
            reveal_strlit(", ");
            reveal_strlit("\"");
            let prefix = av.subrange(0, i as int);
            assert(av.subrange(0, i + 1 as int).drop_last() =~= prefix);
            assert(av.subrange(0, i + 1 as int).last() == av[i as int]);
            assert(av[i as int] == args@[i as int]@);
            assert(items@ =~= json_items(av.subrange(0, i + 1 as int)));
        }
        i = i + 1;
    }
    proof {
        assert(av.subrange(0, av.len() as int) =~= av);
        reveal_strlit("[");
        reveal_strlit("]");
    }
    let mut r = String::from_str("[");
    r.append(items.as_str());
    r.append("]");
    proof {
        assert(r@ =~= json_array_spec(av));
    }
    r
}

/// Where the cursor stands after a batch of updates: it moves past every
/// update whose identifier has reached it, in arrival order.
pub open spec fn advance_offset(off: int, updates: Seq<UpdateView>) -> int
    decreases updates.len(),
{
    if updates.len() == 0 {
        off
    } else {
        let next = if updates[0].update_id >= off {
            updates[0].update_id + 1
        } else {
            off
        };
        advance_offset(next, updates.drop_first())
    }
}

/// Law: the cursor never moves backwards.
pub proof fn lemma_advance_offset_monotonic(off: int, updates: Seq<UpdateView>)
    ensures
        off <= advance_offset(off, updates),
    decreases updates.len(),
{
    if updates.len() > 0 {
        let next = if updates[0].update_id >= off {
            updates[0].update_id + 1
        } else {
            off
        };
        lemma_advance_offset_monotonic(next, updates.drop_first());
    }
}

/// The messages of a batch that carry text, in arrival order.
pub open spec fn texted_messages(updates: Seq<UpdateView>) -> Seq<MessageView>
    decreases updates.len(),
{
    if updates.len() == 0 {
        Seq::empty()
    } else {
        let rest = texted_messages(updates.drop_first());
        match updates[0].message {
            Some(m) => if m.text is Some {
                seq![m] + rest
            } else {
                rest
            },
            None => rest,
        }
    }
}

/// Every message the batch consumption yields carries text, so each can
/// be handed straight to the command handler.
pub proof fn lemma_texted_messages_have_text(updates: Seq<UpdateView>)
    ensures
        forall|i: int|
            0 <= i < texted_messages(updates).len() ==> (#[trigger] texted_messages(
                updates,
            )[i]).text is Some,
    decreases updates.len(),
{
    if updates.len() > 0 {
        let rest = updates.drop_first();
        lemma_texted_messages_have_text(rest);
        assert forall|i: int| 0 <= i < texted_messages(updates).len() implies (
        #[trigger] texted_messages(updates)[i]).text is Some by {
            match updates[0].message {
                Some(m) => {
                    if m.text is Some {
                        if i > 0 {
                            assert(texted_messages(updates)[i] == texted_messages(rest)[i - 1]);
                        } else {
                            assert(texted_messages(updates)[0] == m);
                        }
                    } else {
                        assert(texted_messages(updates)[i] == texted_messages(rest)[i]);
                    }
                },
                None => {
                    assert(texted_messages(updates)[i] == texted_messages(rest)[i]);
                },
            }
        }
    }
}

/// One planned photo delivery: which chat receives which image, with the
/// preview URL and the caption already composed.
pub struct Delivery {
    pub chat_name: String,
    pub photo_url: String,
    pub caption: String,
}

/// The mathematical value of one planned delivery.
pub ghost struct DeliveryView {
    pub chat_name: Seq<char>,
    pub photo_url: Seq<char>,
    pub caption: Seq<char>,
}

impl View for Delivery {
    type V = DeliveryView;

    open spec fn view(&self) -> DeliveryView {
        DeliveryView {
            chat_name: self.chat_name@,
            photo_url: self.photo_url@,
            caption: self.caption@,
        }
    }
}

/// The views of a list of planned deliveries, in order.
pub open spec fn deliveries_view(v: Seq<Delivery>) -> Seq<DeliveryView> {
    Seq::new(v.len(), |i: int| v[i]@)
}

/// The photo URL a delivery carries: the large rendition behind `http:`.
pub open spec fn photo_url_spec(img: ImageView) -> Seq<char> {
    "http:"@ + img.representations.large
}

/// The caption a delivery carries: the source page, the artist credit,
/// and the original source URL, separated by encoded line breaks.
pub open spec fn caption_spec(img: ImageView) -> Seq<char> {
    "http://derpibooru.org/"@ + dec_int(img.id) + "%0A"@ + crate::filter::artist_seq(img.tags)
        + "%0A"@ + img.source_url
}

/// The delivery planned for one subscription and one image.
pub open spec fn delivery_of(chat: ChatView, img: ImageView) -> DeliveryView {
    DeliveryView {
        chat_name: chat.chat_name,
        photo_url: photo_url_spec(img),
        caption: caption_spec(img),
    }
}

/// The deliveries one subscription gets from a batch: one per image whose
/// tags satisfy the subscription's filter, in batch order.
pub open spec fn deliveries_for_chat(chat: ChatView, images: Seq<ImageView>) -> Seq<DeliveryView>
    decreases images.len(),
{
    if images.len() == 0 {
        Seq::empty()
    } else {
        (if crate::filter::tags_match(images[0].tags, chat.filter) {
            seq![delivery_of(chat, images[0])]
        } else {
            Seq::empty()
        }) + deliveries_for_chat(chat, images.drop_first())
    }
}

/// The deliveries a batch of fresh images triggers, subscription by
/// subscription against one snapshot of the store.
pub open spec fn deliveries_spec(chats: Seq<ChatView>, images: Seq<ImageView>) -> Seq<DeliveryView>
    decreases chats.len(),
{
    if chats.len() == 0 {
        Seq::empty()
    } else {
        deliveries_for_chat(chats[0], images) + deliveries_spec(chats.drop_first(), images)
    }
}

/// The reply confirming an addition to a named destination.
pub open spec fn added_named_reply(name: Seq<char>, filt: Seq<char>) -> Seq<char> {
    "Added "@ + name + " to list of chats, with filter "@ + filt
}

/// The reply confirming an addition to the originating chat.
pub open spec fn added_here_reply(filt: Seq<char>) -> Seq<char> {
    "Added this chat to list of chats, with filter "@ + filt
}

/// The reply confirming a removal.
pub open spec fn removed_reply(name: Seq<char>, filt: Seq<char>) -> Seq<char> {
    "Successfully removed chat "@ + name + " with filter "@ + filt + " from posting list."@
}

/// What one command leaves behind: the new subscription set and the
/// replies owed to the requester.
pub ghost struct HandleOutcome {
    pub chats: Seq<ChatView>,
    pub replies: Seq<OutgoingView>,
}

/// What a `/add` command does, given the whitespace-split words of the
/// message: the filter is mandatory; the destination is the third word
/// when present, else the originating chat; extra words are ignored.
pub open spec fn add_command_spec(
    chats: Seq<ChatView>,
    words: Seq<Seq<char>>,
    chat_id: int,
    from_id: int,
) -> HandleOutcome {
    if words.len() >= 2 {
        let filt = words[1];
        if words.len() >= 3 {
            HandleOutcome {
                chats: add_spec(chats, chat_view(words[2], filt, from_id)),
                replies: seq![
                    OutgoingView { chat_id, text: added_named_reply(words[2], filt) },
                ],
            }
        } else {
            HandleOutcome {
                chats: add_spec(chats, chat_view(dec_int(chat_id), filt, from_id)),
                replies: seq![OutgoingView { chat_id, text: added_here_reply(filt) }],
            }
        }
    } else {
        HandleOutcome {
            chats,
            replies: seq![
                OutgoingView { chat_id, text: "Missing argument; need a filter"@ },
            ],
        }
    }
}

/// What a `/remove` command does: with a filter it removes the exact
/// triple and reports the outcome; without one it silently removes every
/// subscription of the requester in the originating chat.
pub open spec fn remove_command_spec(
    chats: Seq<ChatView>,
    words: Seq<Seq<char>>,
    chat_id: int,
    from_id: int,
) -> HandleOutcome {
    if words.len() >= 2 {
        let filt = words[1];
        let dest = if words.len() >= 3 {
            words[2]
        } else {
            dec_int(chat_id)
        };
        let t = chat_view(dest, filt, from_id);
        HandleOutcome {
            chats: remove_spec(chats, t),
            replies: seq![
                OutgoingView {
                    chat_id,
                    text: if chats.contains(t) {
                        removed_reply(dest, filt)
                    } else {
                        "No matching setting found"@
                    },
                },
            ],
        }
    } else {
        HandleOutcome {
            chats: remove_all_spec(chats, dec_int(chat_id), from_id),
            replies: Seq::empty(),
        }
    }
}

/// What any inbound text leads to. The first whitespace-split word picks
/// the command by prefix, so `/addx` counts as `/add`; anything else is
/// answered with `Invalid command` and changes nothing.
pub open spec fn handle_command_spec(
    chats: Seq<ChatView>,
    text: Seq<char>,
    chat_id: int,
    from_id: int,
) -> HandleOutcome {
    let words = split_seq(text, ' ');
    if starts_with_seq(words[0], "/add"@) {
        add_command_spec(chats, words, chat_id, from_id)
    } else if starts_with_seq(words[0], "/remove"@) {
        remove_command_spec(chats, words, chat_id, from_id)
    } else {
        HandleOutcome {
            chats,
            replies: seq![OutgoingView { chat_id, text: "Invalid command"@ }],
        }
    }
}

/// What a whole batch of messages leads to, handled one after another in
/// arrival order: each command sees the store the previous one left.
pub open spec fn handle_messages_spec(chats: Seq<ChatView>, msgs: Seq<MessageView>) -> HandleOutcome
    decreases msgs.len(),
{
    if msgs.len() == 0 {
        HandleOutcome { chats, replies: Seq::empty() }
    } else {
        let first = handle_command_spec(chats, msgs[0].text->0, msgs[0].chat_id, msgs[0].from_id);
        let rest = handle_messages_spec(first.chats, msgs.drop_first());
        HandleOutcome { chats: rest.chats, replies: first.replies + rest.replies }
    }
}

/// The mathematical state of the communicator: the cursor into the
/// inbound feed, the access token, and the subscriptions.
pub ghost struct CommunicatorView {
    pub offset: int,
    pub token: Seq<char>,
    pub chats: Seq<crate::store::ChatView>,
}

/// The command-handling half of the bot: holds the inbound cursor, the
/// API token, and the subscription store it mutates on commands.
pub struct Communicator {
    offset: i64,
    token: String,
    chats: SubscriptionStore,
}

impl View for Communicator {
    type V = CommunicatorView;

    closed spec fn view(&self) -> CommunicatorView {
        CommunicatorView { offset: self.offset as int, token: self.token@, chats: self.chats@ }
    }
}

impl Communicator {
    /// The invariant: the subscription store holds no duplicates.
    pub open spec fn wf(&self) -> bool {
        crate::store::distinct_seq(self@.chats)
    }

    /// Assembles the communicator from reloaded state.
    pub fn new(offset: i64, token: String, chats: SubscriptionStore) -> (c: Communicator)
        requires
            chats.wf(),
        ensures
            c@.offset == offset as int,
            c@.token == token@,
            c@.chats == chats@,
            c.wf(),
    {
        Communicator { offset, token, chats }
    }

    /// The current cursor into the inbound feed.
    pub fn offset(&self) -> (o: i64)
        ensures
            o as int == self@.offset,
    {
        self.offset
    }

    /// The subscription store, for reading and persistence.
    pub fn store(&self) -> (s: &SubscriptionStore)
        ensures
            s@ == self@.chats,
    {
        &self.chats
    }

    /// Builds the request URL for one method call, query arguments
    /// appended as `?key=value&key=value`.
    pub fn url(&self, method_name: &str, args: &[(&str, &str)]) -> (r: String)
        ensures
            r@ == url_spec(self@.token, method_name@, pairs_view(args@)),
    {
        let ghost av = pairs_view(args@);
        let mut arg_string = String::new();
        let mut i: usize = 0;
        proof {
            assert(arg_string@ =~= args_joined(av.subrange(0, 0)));
        }
        while i < args.len()
            invariant
                0 <= i <= args@.len(),
                av == pairs_view(args@),
                av.len() == args@.len(),
                arg_string@ == args_joined(av.subrange(0, i as int)),
            decreases args@.len() - i,
        {
            if i > 0 {
                arg_string.append("&");
            }
            arg_string.append(args[i].0);
            arg_string.append("=");
            arg_string.append(args[i].1);
            proof {
                reveal_strlit("&");
                reveal_strlit("=");
                let prefix = av.subrange(0, i as int);
                assert(av.subrange(0, i + 1 as int).drop_last() =~= prefix);
                assert(av.subrange(0, i + 1 as int).last() == av[i as int]);
                assert(av[i as int] == (args@[i as int].0@, args@[i as int].1@));
                assert(arg_string@ =~= args_joined(av.subrange(0, i + 1 as int)));
            }
            i = i + 1;
        }
        proof {
            assert(av.subrange(0, av.len() as int) =~= av);
            if av.len() > 0 {
                lemma_args_joined_nonempty(av);
            }
        }
        let mut r = String::from_str("https://api.telegram.org/bot");
        r.append(self.token.as_str());
        r.append("/");
        r.append(method_name);
        if !arg_string.as_str().is_empty() {
            r.append("?");
            r.append(arg_string.as_str());
            proof {
                reveal_strlit("?");
                assert(r@ =~= url_spec(self@.token, method_name@, av));
            }
        } else {
            proof {
                assert(arg_string@ =~= Seq::<char>::empty());
                assert(av.len() == 0);
                assert(r@ =~= url_spec(self@.token, method_name@, av));
            }
        }
        r
    }

    /// Consumes one batch of updates: advances the cursor past every
    /// update first, then hands back the messages that carry text, in
    /// arrival order.
    pub fn get_messages_from_reply(&mut self, val: &Reply) -> (messages: Vec<Message>)
        requires
            old(self).wf(),
            forall|i: int|
                0 <= i < val.result@.len() ==> (#[trigger] updates_view(
                    val.result@,
                )[i]).update_id < i64::MAX,
        ensures
            final(self).wf(),
            final(self)@.offset == advance_offset(old(self)@.offset, updates_view(val.result@)),
            final(self)@.token == old(self)@.token,
            final(self)@.chats == old(self)@.chats,
            messages_view(messages@) == texted_messages(updates_view(val.result@)),
    {
        let ghost uv = updates_view(val.result@);
        let ghost off0 = self@.offset;
        let ghost token0 = self@.token;
        let ghost chats0 = self@.chats;
        let mut messages: Vec<Message> = Vec::new();
        let mut i: usize = 0;
        proof {
            assert(uv.subrange(0, uv.len() as int) =~= uv);
            assert(messages_view(messages@) =~= Seq::<MessageView>::empty());
            assert(messages_view(messages@) + texted_messages(uv) =~= texted_messages(uv));
        }
        while i < val.result.len()
            invariant
                0 <= i <= val.result@.len(),
                uv == updates_view(val.result@),
                uv.len() == val.result@.len(),
                forall|j: int| 0 <= j < uv.len() ==> (#[trigger] uv[j]).update_id < i64::MAX,
                self.wf(),
                self@.token == token0,
                self@.chats == chats0,
                advance_offset(off0, uv) == advance_offset(
                    self@.offset,
                    uv.subrange(i as int, uv.len() as int),
                ),
                texted_messages(uv) == messages_view(messages@) + texted_messages(
                    uv.subrange(i as int, uv.len() as int),
                ),
            decreases val.result@.len() - i,
        {
            let ghost tail = uv.subrange(i as int, uv.len() as int);
            let ghost off_before = self@.offset;
            proof {
                assert(tail[0] == uv[i as int]);
                assert(tail.drop_first() =~= uv.subrange(i + 1 as int, uv.len() as int));
                assert(uv[i as int] == val.result@[i as int]@);
            }
            let upd = &val.result[i];
            if upd.update_id >= self.offset {
                self.offset = upd.update_id + 1;
            }
            proof {
                assert(advance_offset(off_before, tail) == advance_offset(
                    self@.offset,
                    uv.subrange(i + 1 as int, uv.len() as int),
                ));
            }
            match &upd.message {
                Some(message) => {
                    if message.text.is_some() {
                        let ghost m0 = messages_view(messages@);
                        messages.push(message.clone());
                        proof {
                            assert(messages_view(messages@) =~= m0 + seq![message@]);
                        }
                    }
                },
                None => {},
            }
            proof {
                assert(texted_messages(uv) =~= messages_view(messages@) + texted_messages(
                    uv.subrange(i + 1 as int, uv.len() as int),
                ));
            }
            i = i + 1;
        }
        proof {
            assert(uv.subrange(uv.len() as int, uv.len() as int) =~= Seq::<UpdateView>::empty());
            assert(messages_view(messages@) + Seq::<MessageView>::empty() =~= messages_view(
                messages@,
            ));
        }
        messages
    }

    /// Records one subscription, as a `/add` command concludes.
    pub fn add_to_chats(&mut self, chat: Chat)
        requires
            old(self).wf(),
        ensures
            final(self).wf(),
            final(self)@.chats == add_spec(old(self)@.chats, chat@),
            final(self)@.offset == old(self)@.offset,
            final(self)@.token == old(self)@.token,
    {
        self.chats.add(chat);
    }

    /// Handles a `/add` command already split into words.
    pub fn handle_add_command(&mut self, words: &Vec<String>, message: &Message) -> (replies:
        Vec<Outgoing>)
        requires
            old(self).wf(),
        ensures
            final(self).wf(),
            final(self)@.chats == add_command_spec(
                old(self)@.chats,
                words.deep_view(),
                message@.chat_id,
                message@.from_id,
            ).chats,
            outgoing_view(replies@) == add_command_spec(
                old(self)@.chats,
                words.deep_view(),
                message@.chat_id,
                message@.from_id,
            ).replies,
            final(self)@.offset == old(self)@.offset,
            final(self)@.token == old(self)@.token,
    {
        let ghost wv = words.deep_view();
        let mut replies: Vec<Outgoing> = Vec::new();
        if words.len() >= 2 {
            proof {
                assert(wv[1] == words@[1]@);
            }
            let reply_text: String;
            let chat_name: String;
            if words.len() >= 3 {
                proof {
                    assert(wv[2] == words@[2]@);
                }
                let mut r = String::from_str("Added ");
                r.append(words[2].as_str());
                r.append(" to list of chats, with filter ");
                r.append(words[1].as_str());
                reply_text = r;
                chat_name = words[2].clone();
            } else {
                let mut r = String::from_str("Added this chat to list of chats, with filter ");
                r.append(words[1].as_str());
                reply_text = r;
                chat_name = i64_to_string(message.chat.id);
            }
            let chat = Chat::new(chat_name.as_str(), words[1].as_str(), message.from.id);
            self.add_to_chats(chat);
            replies.push(Outgoing { chat_id: message.chat.id, text: reply_text });
            proof {
                assert(outgoing_view(replies@) =~= add_command_spec(
                    old(self)@.chats,
                    wv,
                    message@.chat_id,
                    message@.from_id,
                ).replies);
            }
        } else {
            replies.push(
                Outgoing {
                    chat_id: message.chat.id,
                    text: String::from_str("Missing argument; need a filter"),
                },
            );
            proof {
                assert(outgoing_view(replies@) =~= add_command_spec(
                    old(self)@.chats,
                    wv,
                    message@.chat_id,
                    message@.from_id,
                ).replies);
            }
        }
        replies
    }

    /// Handles a `/remove` command already split into words.
    pub fn handle_remove_command(&mut self, words: &Vec<String>, message: &Message) -> (replies:
        Vec<Outgoing>)
        requires
            old(self).wf(),
        ensures
            final(self).wf(),
            final(self)@.chats == remove_command_spec(
                old(self)@.chats,
                words.deep_view(),
                message@.chat_id,
                message@.from_id,
            ).chats,
            outgoing_view(replies@) == remove_command_spec(
                old(self)@.chats,
                words.deep_view(),
                message@.chat_id,
                message@.from_id,
            ).replies,
            final(self)@.offset == old(self)@.offset,
            final(self)@.token == old(self)@.token,
    {
        let ghost wv = words.deep_view();
        let mut replies: Vec<Outgoing> = Vec::new();
        if words.len() >= 2 {
            proof {
                assert(wv[1] == words@[1]@);
            }
            let chat_name: String;
            if words.len() >= 3 {
                proof {
                    assert(wv[2] == words@[2]@);
                }
                chat_name = words[2].clone();
            } else {
                chat_name = i64_to_string(message.chat.id);
            }
            let removed = self.chats.remove(
                chat_name.as_str(),
                words[1].as_str(),
                message.from.id,
            );
            let reply_text: String;
            if removed {
                let mut r = String::from_str("Successfully removed chat ");
                r.append(chat_name.as_str());
                r.append(" with filter ");
                r.append(words[1].as_str());
                r.append(" from posting list.");
                reply_text = r;
            } else {
                reply_text = String::from_str("No matching setting found");
            }
            replies.push(Outgoing { chat_id: message.chat.id, text: reply_text });
            proof {
                assert(outgoing_view(replies@) =~= remove_command_spec(
                    old(self)@.chats,
                    wv,
                    message@.chat_id,
                    message@.from_id,
                ).replies);
            }
        } else {
            let chat_name = i64_to_string(message.chat.id);
            self.chats.remove_all(chat_name.as_str(), message.from.id);
            proof {
                assert(outgoing_view(replies@) =~= Seq::<OutgoingView>::empty());
            }
        }
        replies
    }

    /// Handles one inbound message with text: parses the command, mutates
    /// the subscriptions, and returns the replies owed to the requester.
    pub fn handle_command(&mut self, message: &Message) -> (replies: Vec<Outgoing>)
        requires
            old(self).wf(),
            message@.text is Some,
        ensures
            final(self).wf(),
            final(self)@.chats == handle_command_spec(
                old(self)@.chats,
                message@.text->0,
                message@.chat_id,
                message@.from_id,
            ).chats,
            outgoing_view(replies@) == handle_command_spec(
                old(self)@.chats,
                message@.text->0,
                message@.chat_id,
                message@.from_id,
            ).replies,
            final(self)@.offset == old(self)@.offset,
            final(self)@.token == old(self)@.token,
    {
        let text = message.text.as_ref().unwrap();
        let words = split_char(text.as_str(), ' ');
        proof {
            lemma_split_seq_nonempty(message@.text->0, ' ');
            assert(words.deep_view()[0] == words@[0]@);
        }
        if starts_with_str(words[0].as_str(), "/add") {
            self.handle_add_command(&words, message)
        } else if starts_with_str(words[0].as_str(), "/remove") {
            self.handle_remove_command(&words, message)
        } else {
            let mut replies: Vec<Outgoing> = Vec::new();
            replies.push(
                Outgoing { chat_id: message.chat.id, text: String::from_str("Invalid command") },
            );
            proof {
                assert(outgoing_view(replies@) =~= handle_command_spec(
                    old(self)@.chats,
                    message@.text->0,
                    message@.chat_id,
                    message@.from_id,
                ).replies);
            }
            replies
        }
    }

    /// Handles a whole batch of inbound messages in arrival order, each
    /// command acting on the store the previous one left, and collects
    /// every reply owed.
    pub fn handle_messages(&mut self, messages: &Vec<Message>) -> (replies: Vec<Outgoing>)
        requires
            old(self).wf(),
            forall|i: int|
                0 <= i < messages@.len() ==> (#[trigger] messages_view(messages@)[i]).text
                    is Some,
        ensures
            final(self).wf(),
            final(self)@.chats == handle_messages_spec(
                old(self)@.chats,
                messages_view(messages@),
            ).chats,
            outgoing_view(replies@) == handle_messages_spec(
                old(self)@.chats,
                messages_view(messages@),
            ).replies,
            final(self)@.offset == old(self)@.offset,
            final(self)@.token == old(self)@.token,
    {
        let ghost mv = messages_view(messages@);
        let ghost chats0 = self@.chats;
        let ghost token0 = self@.token;
        let ghost off0 = self@.offset;
        let mut replies: Vec<Outgoing> = Vec::new();
        let mut i: usize = 0;
        proof {
            assert(mv.subrange(0, mv.len() as int) =~= mv);
            assert(outgoing_view(replies@) =~= Seq::<OutgoingView>::empty());
        }
        while i < messages.len()
            invariant
                0 <= i <= mv.len(),
                mv == messages_view(messages@),
                mv.len() == messages@.len(),
                forall|j: int| 0 <= j < mv.len() ==> (#[trigger] mv[j]).text is Some,
                self.wf(),
                self@.token == token0,
                self@.offset == off0,
                handle_messages_spec(chats0, mv).chats == handle_messages_spec(
                    self@.chats,
                    mv.subrange(i as int, mv.len() as int),
                ).chats,
                handle_messages_spec(chats0, mv).replies == outgoing_view(replies@)
                    + handle_messages_spec(
                    self@.chats,
                    mv.subrange(i as int, mv.len() as int),
                ).replies,
            decreases mv.len() - i,
        {
            let ghost tail = mv.subrange(i as int, mv.len() as int);
            let ghost r0 = outgoing_view(replies@);
            proof {
                assert(tail[0] == mv[i as int]);
                assert(tail.drop_first() =~= mv.subrange(i + 1 as int, mv.len() as int));
                assert(mv[i as int] == messages@[i as int]@);
            }
            let ghost chats_i = self@.chats;
            let mut batch = self.handle_command(&messages[i]);
            let ghost bv = outgoing_view(batch@);
            replies.append(&mut batch);
            proof {
                let first = handle_command_spec(
                    chats_i,
                    tail[0].text->0,
                    tail[0].chat_id,
                    tail[0].from_id,
                );
                assert(bv == first.replies);
                assert(self@.chats == first.chats);
                assert(outgoing_view(replies@) =~= r0 + bv);
                assert(handle_messages_spec(chats0, mv).chats == handle_messages_spec(
                    self@.chats,
                    mv.subrange(i + 1 as int, mv.len() as int),
                ).chats);
                assert(handle_messages_spec(chats0, mv).replies =~= outgoing_view(replies@)
                    + handle_messages_spec(
                    self@.chats,
                    mv.subrange(i + 1 as int, mv.len() as int),
                ).replies);
            }
            i = i + 1;
        }
        proof {
            assert(mv.subrange(mv.len() as int, mv.len() as int) =~= Seq::<MessageView>::empty());
            assert(outgoing_view(replies@) + Seq::<OutgoingView>::empty() =~= outgoing_view(
                replies@,
            ));
        }
        replies
    }

    /// Plans the photo deliveries for a batch of fresh images: one per
    /// (subscription, image) pair whose tags satisfy the filter, every
    /// pair judged against the same snapshot of the store.
    pub fn plan_deliveries(&self, new_images: &Vec<ImageResponse>) -> (out: Vec<Delivery>)
        ensures
            deliveries_view(out@) == deliveries_spec(self@.chats, imgs_view(new_images@)),
    {
        let ghost cv = self@.chats;
        let ghost iv = imgs_view(new_images@);
        let chats = self.chats.snapshot();
        let mut out: Vec<Delivery> = Vec::new();
        let mut ci: usize = 0;
        proof {
            assert(cv.subrange(0, cv.len() as int) =~= cv);
            assert(deliveries_view(out@) =~= Seq::<DeliveryView>::empty());
            assert(deliveries_view(out@) + deliveries_spec(cv, iv) =~= deliveries_spec(cv, iv));
        }
        while ci < chats.len()
            invariant
                0 <= ci <= cv.len(),
                chats@.len() == cv.len(),
                forall|k: int| 0 <= k < cv.len() ==> #[trigger] chats@[k]@ == cv[k],
                iv == imgs_view(new_images@),
                iv.len() == new_images@.len(),
                deliveries_spec(cv, iv) == deliveries_view(out@) + deliveries_spec(
                    cv.subrange(ci as int, cv.len() as int),
                    iv,
                ),
            decreases cv.len() - ci,
        {
            let ghost ctail = cv.subrange(ci as int, cv.len() as int);
            let ghost gchat = cv[ci as int];
            let ghost out0 = deliveries_view(out@);
            proof {
                assert(ctail[0] == cv[ci as int]);
                assert(ctail.drop_first() =~= cv.subrange(ci + 1 as int, cv.len() as int));
            }
            let chat = &chats[ci];
            proof {
                assert(chat@ == gchat);
            }
            let mut ii: usize = 0;
            proof {
                assert(iv.subrange(0, iv.len() as int) =~= iv);
            }
            while ii < new_images.len()
                invariant
                    0 <= ii <= iv.len(),
                    iv == imgs_view(new_images@),
                    iv.len() == new_images@.len(),
                    chat@ == gchat,
                    deliveries_view(out@) + deliveries_for_chat(
                        gchat,
                        iv.subrange(ii as int, iv.len() as int),
                    ) == out0 + deliveries_for_chat(gchat, iv),
                decreases iv.len() - ii,
            {
                let ghost itail = iv.subrange(ii as int, iv.len() as int);
                let ghost o1 = deliveries_view(out@);
                proof {
                    assert(itail[0] == iv[ii as int]);
                    assert(itail.drop_first() =~= iv.subrange(ii + 1 as int, iv.len() as int));
                    assert(iv[ii as int] == new_images@[ii as int]@);
                }
                let image = &new_images[ii];
                if tags_fit(image.tags.as_str(), chat.filter.as_str()) {
                    let mut photo_url = String::from_str("http:");
                    photo_url.append(image.representations.large.as_str());
                    let mut caption = String::from_str("http://derpibooru.org/");
                    append_i64(&mut caption, image.id);
                    caption.append("%0A");
                    let artist = get_artist(image.tags.as_str());
                    caption.append(artist.as_str());
                    caption.append("%0A");
                    caption.append(image.source_url.as_str());
                    out.push(
                        Delivery { chat_name: chat.chat_name.clone(), photo_url, caption },
                    );
                    proof {
                        assert(deliveries_view(out@) =~= o1.push(
                            delivery_of(gchat, iv[ii as int]),
                        ));
                        assert(o1.push(delivery_of(gchat, iv[ii as int])) =~= o1 + seq![
                            delivery_of(gchat, iv[ii as int]),
                        ]);
                    }
                }
                proof {
                    assert(deliveries_view(out@) + deliveries_for_chat(
                        gchat,
                        iv.subrange(ii + 1 as int, iv.len() as int),
                    ) =~= out0 + deliveries_for_chat(gchat, iv));
                }
                ii = ii + 1;
            }
            proof {
                assert(iv.subrange(iv.len() as int, iv.len() as int) =~= Seq::<ImageView>::empty());
                assert(deliveries_view(out@) + Seq::<DeliveryView>::empty() =~= deliveries_view(
                    out@,
                ));
                assert(deliveries_view(out@) =~= out0 + deliveries_for_chat(gchat, iv));
                assert(deliveries_view(out@) + deliveries_spec(
                    cv.subrange(ci + 1 as int, cv.len() as int),
                    iv,
                ) =~= out0 + deliveries_spec(ctail, iv));
            }
            ci = ci + 1;
        }
        proof {
            assert(cv.subrange(cv.len() as int, cv.len() as int) =~= Seq::<ChatView>::empty());
            assert(deliveries_view(out@) + Seq::<DeliveryView>::empty() =~= deliveries_view(out@));
        }
        out
    }
}

} // verus!
