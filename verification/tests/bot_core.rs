use sapphbot::bot::Bot;
use sapphbot::codec::{decode_chats, decode_strings, encode_chats, encode_seen, encode_strings};
use sapphbot::communicator::{
    json_array, Communicator, Message, Reply, ServerChat, Update, User,
};
use sapphbot::derpiquery::{Derpiquery, RetryBackoff, SeenSet};
use sapphbot::filter::{get_artist, tags_fit};
use sapphbot::images::{ImageResponse, Representations};
use sapphbot::queue::BatchQueue;
use sapphbot::store::{Chat, SubscriptionStore};
use sapphbot::strutil::{i64_to_string, parse_i64, split_char, trim_str, u64_to_string};

fn image(id: i64, tags: &str, hash: &str) -> ImageResponse {
    ImageResponse {
        id,
        mime_type: String::from("image/png"),
        image: String::from("img"),
        representations: Representations {
            small: String::from("//cdn/s.png"),
            medium: String::from("//cdn/m.png"),
            large: String::from("//cdn/l.png"),
        },
        tags: String::from(tags),
        source_url: String::from("http://src.example"),
        sha512_hash: String::from(hash),
    }
}

fn message(chat_id: i64, user_id: i64, text: &str) -> Message {
    Message {
        from: User { id: user_id },
        message_id: 1,
        chat: ServerChat { id: chat_id },
        text: Some(String::from(text)),
    }
}

#[test]
fn match_all_sentinel_accepts_everything() {
    assert!(tags_fit("foo, bar", "any"));
    assert!(tags_fit("", "any"));
    assert!(tags_fit("baz", "any"));
}

#[test]
fn exact_segment_matching() {
    assert!(tags_fit("foo, bar", "foo"));
    assert!(tags_fit("foo, bar", "bar"));
    assert!(!tags_fit("foo, bar", "baz"));
    assert!(!tags_fit("foobar", "foo"));
    assert!(!tags_fit("foo, bar", "Foo"));
    assert!(!tags_fit("", "foo"));
}

#[test]
fn empty_tag_string_matches_only_the_sentinel() {
    assert!(!tags_fit("", ""));
    assert!(!tags_fit("", "foo"));
    assert!(tags_fit("", "any"));
    // a non-empty tag string may still carry an empty segment
    assert!(tags_fit(" , a", ""));
}

#[test]
fn untagged_image_is_delivered_only_to_match_all_subscribers() {
    let mut store = SubscriptionStore::new();
    store.add(Chat::new("chatA", "", 1));
    store.add(Chat::new("chatB", "any", 2));
    let comm = Communicator::new(0, String::from("tok"), store);
    let deliveries = comm.plan_deliveries(&vec![image(9, "", "h9")]);
    assert_eq!(deliveries.len(), 1);
    assert_eq!(deliveries[0].chat_name, "chatB");
}

#[test]
fn segments_are_trimmed_before_comparison() {
    assert!(tags_fit("  foo ,\tbar", "foo"));
    assert!(tags_fit("a, b ,c", "b"));
    assert!(!tags_fit("f oo", "foo"));
}

#[test]
fn artist_tag_extraction() {
    assert_eq!(get_artist("cute, artist:someone, safe"), "artist:someone");
    assert_eq!(get_artist("cute, safe"), "");
    assert_eq!(get_artist("artist:a, artist:b"), "artist:a");
}

#[test]
fn split_and_trim_behave_like_std() {
    let parts = split_char("a,b,,c", ',');
    let views: Vec<&str> = parts.iter().map(|s| s.as_str()).collect();
    assert_eq!(views, vec!["a", "b", "", "c"]);
    assert_eq!(split_char("", ',').len(), 1);
    assert_eq!(trim_str("  x y\t"), "x y");
    assert_eq!(trim_str("   "), "");
}

#[test]
fn decimal_rendering_exact_values() {
    assert_eq!(u64_to_string(0), "0");
    assert_eq!(u64_to_string(9081), "9081");
    assert_eq!(i64_to_string(-42), "-42");
    assert_eq!(i64_to_string(i64::MIN), "-9223372036854775808");
    assert_eq!(i64_to_string(i64::MAX), "9223372036854775807");
}

#[test]
fn decimal_parsing_exact_values() {
    assert_eq!(parse_i64("123"), Some(123));
    assert_eq!(parse_i64("-123"), Some(-123));
    assert_eq!(parse_i64("+7"), Some(7));
    assert_eq!(parse_i64("9223372036854775807"), Some(i64::MAX));
    assert_eq!(parse_i64("-9223372036854775808"), Some(i64::MIN));
    assert_eq!(parse_i64("9223372036854775808"), None);
    assert_eq!(parse_i64(""), None);
    assert_eq!(parse_i64("-"), None);
    assert_eq!(parse_i64("12a"), None);
    assert_eq!(parse_i64(" 12"), None);
}

#[test]
fn store_add_is_idempotent() {
    let mut store = SubscriptionStore::new();
    store.add(Chat::new("42", "any", 7));
    store.add(Chat::new("42", "any", 7));
    assert_eq!(store.len(), 1);
    store.add(Chat::new("42", "any", 8));
    assert_eq!(store.len(), 2);
}

#[test]
fn store_add_remove_round_trip() {
    let mut store = SubscriptionStore::new();
    store.add(Chat::new("chatA", "foo", 1));
    assert!(store.remove("chatA", "foo", 1));
    assert_eq!(store.len(), 0);
    assert!(!store.remove("chatA", "foo", 1));
    assert_eq!(store.len(), 0);
}

#[test]
fn store_remove_needs_the_exact_triple() {
    let mut store = SubscriptionStore::new();
    store.add(Chat::new("chatA", "foo", 1));
    assert!(!store.remove("chatA", "foo", 2));
    assert!(!store.remove("chatA", "bar", 1));
    assert!(!store.remove("chatB", "foo", 1));
    assert_eq!(store.len(), 1);
}

#[test]
fn store_remove_all_spares_other_owners_and_destinations() {
    let mut store = SubscriptionStore::new();
    store.add(Chat::new("chatA", "foo", 1));
    store.add(Chat::new("chatA", "bar", 1));
    store.add(Chat::new("chatA", "foo", 2));
    store.add(Chat::new("chatB", "foo", 1));
    store.remove_all("chatA", 1);
    assert_eq!(store.len(), 2);
    assert!(store.contains_chat(&Chat::new("chatA", "foo", 2)));
    assert!(store.contains_chat(&Chat::new("chatB", "foo", 1)));
}

#[test]
fn dedup_lets_each_hash_through_once() {
    let mut query = Derpiquery::new(SeenSet::new());
    let batch1 = vec![image(1, "foo", "h1"), image(2, "bar", "h2")];
    let fresh1 = query.compute_new_images(&batch1);
    assert_eq!(fresh1.len(), 2);
    let batch2 = vec![image(1, "foo", "h1"), image(3, "baz", "h3")];
    let fresh2 = query.compute_new_images(&batch2);
    assert_eq!(fresh2.len(), 1);
    assert_eq!(fresh2[0].sha512_hash, "h3");
    assert_eq!(query.seen().len(), 3);
}

#[test]
fn dedup_catches_repeats_inside_one_batch() {
    let mut query = Derpiquery::new(SeenSet::new());
    let batch = vec![image(1, "foo", "h1"), image(2, "bar", "h1")];
    let fresh = query.compute_new_images(&batch);
    assert_eq!(fresh.len(), 1);
    assert_eq!(fresh[0].id, 1);
}

#[test]
fn dedup_respects_preloaded_hashes() {
    let seen = SeenSet::from_entries(vec![String::from("h1")]);
    let mut query = Derpiquery::new(seen);
    let fresh = query.compute_new_images(&vec![image(1, "foo", "h1")]);
    assert_eq!(fresh.len(), 0);
    assert_eq!(query.seen().len(), 1);
}

#[test]
fn dispatch_two_matching_subscriptions() {
    let mut store = SubscriptionStore::new();
    store.add(Chat::new("chatA", "foo", 1));
    store.add(Chat::new("chatB", "any", 2));
    let comm = Communicator::new(0, String::from("tok"), store);

    let deliveries = comm.plan_deliveries(&vec![image(5, "foo, bar", "h1")]);
    assert_eq!(deliveries.len(), 2);
    let mut names: Vec<&str> = deliveries.iter().map(|d| d.chat_name.as_str()).collect();
    names.sort();
    assert_eq!(names, vec!["chatA", "chatB"]);

    let deliveries = comm.plan_deliveries(&vec![image(6, "baz", "h2")]);
    assert_eq!(deliveries.len(), 1);
    assert_eq!(deliveries[0].chat_name, "chatB");
}

#[test]
fn dispatch_composes_photo_url_and_caption() {
    let mut store = SubscriptionStore::new();
    store.add(Chat::new("chatB", "any", 2));
    let comm = Communicator::new(0, String::from("tok"), store);
    let deliveries = comm.plan_deliveries(&vec![image(77, "artist:me, cute", "h1")]);
    assert_eq!(deliveries.len(), 1);
    assert_eq!(deliveries[0].photo_url, "http://cdn/l.png");
    assert_eq!(
        deliveries[0].caption,
        "http://derpibooru.org/77%0Aartist:me%0Ahttp://src.example"
    );
}

#[test]
fn add_command_end_to_end() {
    let mut comm = Communicator::new(0, String::from("tok"), SubscriptionStore::new());
    let replies = comm.handle_command(&message(42, 7, "/add any"));
    assert_eq!(replies.len(), 1);
    assert_eq!(replies[0].chat_id, 42);
    assert_eq!(
        replies[0].text,
        "Added this chat to list of chats, with filter any"
    );
    assert_eq!(comm.store().len(), 1);
    assert!(comm.store().contains_chat(&Chat::new("42", "any", 7)));

    let replies = comm.handle_command(&message(42, 7, "/remove any"));
    assert_eq!(replies.len(), 1);
    assert_eq!(
        replies[0].text,
        "Successfully removed chat 42 with filter any from posting list."
    );
    assert_eq!(comm.store().len(), 0);
}

#[test]
fn add_command_with_explicit_destination() {
    let mut comm = Communicator::new(0, String::from("tok"), SubscriptionStore::new());
    let replies = comm.handle_command(&message(42, 7, "/add foo otherchat"));
    assert_eq!(replies.len(), 1);
    assert_eq!(
        replies[0].text,
        "Added otherchat to list of chats, with filter foo"
    );
    assert!(comm.store().contains_chat(&Chat::new("otherchat", "foo", 7)));
}

#[test]
fn add_command_without_filter_is_rejected() {
    let mut comm = Communicator::new(0, String::from("tok"), SubscriptionStore::new());
    let replies = comm.handle_command(&message(42, 7, "/add"));
    assert_eq!(replies.len(), 1);
    assert_eq!(replies[0].text, "Missing argument; need a filter");
    assert_eq!(comm.store().len(), 0);
}

#[test]
fn command_token_matches_by_prefix() {
    let mut comm = Communicator::new(0, String::from("tok"), SubscriptionStore::new());
    let replies = comm.handle_command(&message(42, 7, "/addx foo"));
    assert_eq!(replies.len(), 1);
    assert_eq!(
        replies[0].text,
        "Added this chat to list of chats, with filter foo"
    );
    assert!(comm.store().contains_chat(&Chat::new("42", "foo", 7)));
}

#[test]
fn unknown_command_gets_invalid_reply() {
    let mut comm = Communicator::new(0, String::from("tok"), SubscriptionStore::new());
    let replies = comm.handle_command(&message(42, 7, "hello there"));
    assert_eq!(replies.len(), 1);
    assert_eq!(replies[0].text, "Invalid command");
    assert_eq!(comm.store().len(), 0);
}

#[test]
fn remove_of_missing_triple_reports_no_match() {
    let mut comm = Communicator::new(0, String::from("tok"), SubscriptionStore::new());
    let replies = comm.handle_command(&message(42, 7, "/remove foo"));
    assert_eq!(replies.len(), 1);
    assert_eq!(replies[0].text, "No matching setting found");
}

#[test]
fn filterless_remove_clears_own_chat_silently() {
    let mut comm = Communicator::new(0, String::from("tok"), SubscriptionStore::new());
    comm.handle_command(&message(42, 7, "/add foo"));
    comm.handle_command(&message(42, 7, "/add bar"));
    comm.handle_command(&message(42, 9, "/add foo"));
    comm.handle_command(&message(43, 7, "/add foo"));
    let replies = comm.handle_command(&message(42, 7, "/remove"));
    assert_eq!(replies.len(), 0);
    assert_eq!(comm.store().len(), 2);
    assert!(comm.store().contains_chat(&Chat::new("42", "foo", 9)));
    assert!(comm.store().contains_chat(&Chat::new("43", "foo", 7)));
}

#[test]
fn message_batches_are_handled_in_arrival_order() {
    let mut comm = Communicator::new(0, String::from("tok"), SubscriptionStore::new());
    let batch = vec![
        message(42, 7, "/add foo"),
        message(42, 7, "/remove foo"),
        message(42, 7, "nonsense"),
    ];
    let replies = comm.handle_messages(&batch);
    assert_eq!(replies.len(), 3);
    assert_eq!(replies[0].text, "Added this chat to list of chats, with filter foo");
    assert_eq!(
        replies[1].text,
        "Successfully removed chat 42 with filter foo from posting list."
    );
    assert_eq!(replies[2].text, "Invalid command");
    assert_eq!(comm.store().len(), 0);
}

#[test]
fn cursor_advances_past_every_update() {
    let mut comm = Communicator::new(3, String::from("tok"), SubscriptionStore::new());
    let reply = Reply {
        ok: true,
        result: vec![
            Update { update_id: 5, message: None },
            Update { update_id: 7, message: Some(message(42, 7, "/add any")) },
            Update { update_id: 2, message: Some(message(42, 7, "ignored")) },
        ],
    };
    let messages = comm.get_messages_from_reply(&reply);
    assert_eq!(comm.offset(), 8);
    assert_eq!(messages.len(), 2);
    assert_eq!(messages[0].text.as_deref(), Some("/add any"));
}

#[test]
fn messages_without_text_are_skipped() {
    let mut comm = Communicator::new(0, String::from("tok"), SubscriptionStore::new());
    let no_text = Message {
        from: User { id: 1 },
        message_id: 9,
        chat: ServerChat { id: 2 },
        text: None,
    };
    let reply = Reply {
        ok: true,
        result: vec![Update { update_id: 1, message: Some(no_text) }],
    };
    let messages = comm.get_messages_from_reply(&reply);
    assert_eq!(messages.len(), 0);
    assert_eq!(comm.offset(), 2);
}

#[test]
fn request_url_layout() {
    let comm = Communicator::new(0, String::from("TOKEN"), SubscriptionStore::new());
    assert_eq!(
        comm.url("getUpdates", &[("a", "1"), ("b", "2")]),
        "https://api.telegram.org/botTOKEN/getUpdates?a=1&b=2"
    );
    assert_eq!(
        comm.url("getMe", &[]),
        "https://api.telegram.org/botTOKEN/getMe"
    );
}

#[test]
fn json_array_layout() {
    assert_eq!(json_array(&["message"]), "[\"message\"]");
    assert_eq!(json_array(&["a", "b"]), "[\"a\", \"b\"]");
    assert_eq!(json_array(&[]), "[]");
}

#[test]
fn seen_snapshot_round_trip() {
    let seen = SeenSet::from_entries(vec![
        String::from("h1"),
        String::from("with:colon"),
        String::from(""),
        String::from("line\nbreak"),
    ]);
    let encoded = encode_seen(&seen);
    let decoded = decode_strings(encoded.as_str()).expect("snapshot must decode");
    assert_eq!(decoded, seen.entries().clone());
}

#[test]
fn chats_snapshot_round_trip() {
    let mut store = SubscriptionStore::new();
    store.add(Chat::new("42", "any", 7));
    store.add(Chat::new("chat B", "tag,with commas", -3));
    let encoded = encode_chats(&store);
    let decoded = decode_chats(encoded.as_str()).expect("snapshot must decode");
    assert_eq!(decoded.len(), 2);
    assert_eq!(decoded[0].chat_name, "42");
    assert_eq!(decoded[0].filter, "any");
    assert_eq!(decoded[0].requester, 7);
    assert_eq!(decoded[1].chat_name, "chat B");
    assert_eq!(decoded[1].filter, "tag,with commas");
    assert_eq!(decoded[1].requester, -3);
}

#[test]
fn corrupt_snapshots_are_rejected() {
    assert!(decode_strings("x").is_none());
    assert!(decode_strings("3:ab").is_none());
    assert!(decode_strings(":abc").is_none());
    assert!(decode_strings("2ab").is_none());
    assert_eq!(decode_strings("").expect("empty snapshot decodes").len(), 0);
    assert!(decode_chats("2:ab").is_none());
    assert!(decode_chats("1:a1:b1:x").is_none());
}

#[test]
fn encode_layout_is_length_prefixed() {
    let encoded = encode_strings(&vec![String::from("ab"), String::from("")]);
    assert_eq!(encoded, "2:ab0:");
}

#[test]
fn previously_seen_image_survives_restart() {
    let mut query = Derpiquery::new(SeenSet::new());
    query.compute_new_images(&vec![image(1, "foo", "h1")]);
    let encoded = encode_seen(query.seen());

    let reloaded = SeenSet::from_entries(
        decode_strings(encoded.as_str()).expect("snapshot must decode"),
    );
    let mut store = SubscriptionStore::new();
    store.add(Chat::new("chatB", "any", 2));
    let comm = Communicator::new(0, String::from("tok"), store);
    let mut query2 = Derpiquery::new(reloaded);
    let fresh = query2.compute_new_images(&vec![image(1, "foo", "h1")]);
    let deliveries = comm.plan_deliveries(&fresh);
    assert_eq!(deliveries.len(), 0);
}

#[test]
fn batch_queue_hands_batches_out_in_order() {
    let mut queue = BatchQueue::new();
    assert!(queue.try_take().is_none());
    queue.push_batch(vec![image(1, "a", "h1")]);
    queue.push_batch(vec![image(2, "b", "h2")]);
    assert_eq!(queue.len(), 2);
    let first = queue.try_take().expect("first batch");
    assert_eq!(first[0].id, 1);
    let second = queue.try_take().expect("second batch");
    assert_eq!(second[0].id, 2);
    assert!(queue.try_take().is_none());
}

#[test]
fn backoff_doubles_until_it_gives_up() {
    let mut backoff = RetryBackoff::new();
    let mut waits = Vec::new();
    while !backoff.gave_up() {
        waits.push(backoff.timeout_ms);
        backoff.double();
    }
    assert_eq!(
        waits,
        vec![1000, 2000, 4000, 8000, 16000, 32000, 64000, 128000, 256000, 512000]
    );
    assert_eq!(backoff.timeout_ms, 1024000);
}

#[test]
fn dedup_holds_across_many_cycles() {
    let mut query = Derpiquery::new(SeenSet::new());
    let mut delivered: Vec<String> = Vec::new();
    let batches = vec![
        vec![image(1, "a", "h1"), image(2, "b", "h2")],
        vec![image(2, "b", "h2")],
        vec![image(1, "a", "h1"), image(3, "c", "h3"), image(2, "b", "h2")],
        vec![image(3, "c", "h3")],
    ];
    for batch in &batches {
        for fresh in query.compute_new_images(batch) {
            assert!(!delivered.contains(&fresh.sha512_hash));
            delivered.push(fresh.sha512_hash);
        }
    }
    delivered.sort();
    assert_eq!(delivered, vec!["h1", "h2", "h3"]);
}

#[test]
fn chats_snapshot_handles_extreme_owner_ids() {
    let mut store = SubscriptionStore::new();
    store.add(Chat::new("c", "f", i64::MIN));
    store.add(Chat::new("c", "f", i64::MAX));
    let decoded = decode_chats(encode_chats(&store).as_str()).expect("snapshot must decode");
    assert_eq!(decoded[0].requester, i64::MIN);
    assert_eq!(decoded[1].requester, i64::MAX);
}

#[test]
fn unicode_whitespace_is_trimmed_like_std() {
    assert_eq!(trim_str("\u{a0}x\u{2003}"), "x".trim());
    assert!(tags_fit("\u{2028}foo\u{a0}, bar", "foo"));
}

#[test]
fn bot_assembles_from_reloaded_halves() {
    let query = Derpiquery::new(SeenSet::from_entries(vec![String::from("h1")]));
    let comm = Communicator::new(5, String::from("tok"), SubscriptionStore::new());
    let bot = Bot::new(query, comm);
    assert_eq!(bot.communicator.offset(), 5);
    assert_eq!(bot.derpiquery.seen().len(), 1);
}
