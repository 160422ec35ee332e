//! The snapshot codec: the flat on-disk form of the seen-hash set and the
//! subscription set. Every entry is written as its character count in
//! decimal, a colon, and the characters themselves, so any string survives
//! the trip; a subscription is three consecutive entries. Decoding an
//! encoded snapshot provably gives the entries back unchanged.

use vstd::prelude::*;
use vstd::string::StrSliceExecFns;
use vstd::string::StringExecFns;
use crate::strutil::{
    dec_digits, dec_val, dec_int, digit_val, all_digits, is_digit, find_from, append_u64,
    i64_to_string, parse_i64, valid_i64_lit, i64_lit_val, lemma_find_from_value,
    lemma_dec_digits_all_digits, lemma_dec_val_of_dec_digits, lemma_parse_of_dec_int,
    lemma_dec_val_step, lemma_dec_val_prefix_bound, lemma_dec_val_nonneg,
};
use crate::store::{SubscriptionStore, Chat, ChatView, chats_view};
use crate::derpiquery::SeenSet;

verus! {

/// One encoded entry: the character count in decimal, a colon, the
/// characters.
pub open spec fn encode_str(s: Seq<char>) -> Seq<char> {
    dec_digits(s.len()) + seq![':'] + s
}

/// A whole snapshot: the entries encoded one after another.
pub open spec fn encode_entries(l: Seq<Seq<char>>) -> Seq<char>
    decreases l.len(),
{
    if l.len() == 0 {
        Seq::empty()
    } else {
        encode_str(l[0]) + encode_entries(l.drop_first())
    }
}

/// What decoding a snapshot yields: the entries in order, or nothing when
/// the text is not a well-formed snapshot.
pub open spec fn decode_entries_spec(s: Seq<char>) -> Option<Seq<Seq<char>>>
    decreases s.len(),
{
    if s.len() == 0 {
        Some(Seq::empty())
    } else {
        let j = find_from(s, ':', 0);
        if !(0 <= j < s.len()) {
            None
        } else {
            let header = s.subrange(0, j);
            if header.len() == 0 || !all_digits(header) {
                None
            } else {
                let n = dec_val(header);
                if n < 0 || j + 1 + n > s.len() {
                    None
                } else {
                    let body = s.subrange(j + 1, j + 1 + n);
                    let rest = s.subrange(j + 1 + n, s.len() as int);
                    match decode_entries_spec(rest) {
                        Some(l) => Some(seq![body] + l),
                        None => None,
                    }
                }
            }
        }
    }
}

/// Law: decoding an encoded snapshot gives the entries back unchanged.
pub proof fn lemma_entries_round_trip(l: Seq<Seq<char>>)
    ensures
        decode_entries_spec(encode_entries(l)) == Some(l),
    decreases l.len(),
{
    if l.len() == 0 {
        assert(encode_entries(l) =~= Seq::<char>::empty());
        assert(decode_entries_spec(encode_entries(l)) == Some(Seq::<Seq<char>>::empty()));
        assert(l =~= Seq::<Seq<char>>::empty());
    } else {
        let e = l[0];
        let h = dec_digits(e.len());
        let full = encode_entries(l);
        let tail_enc = encode_entries(l.drop_first());
        lemma_dec_digits_all_digits(e.len());
        lemma_dec_val_of_dec_digits(e.len());
        assert(full =~= h + seq![':'] + e + tail_enc);
        let hl = h.len() as int;
        assert(full.len() > 0);
        assert forall|k: int| 0 <= k < hl implies full[k] != ':' by {
            assert(full[k] == h[k]);
            assert(is_digit(h[k]));
        }
        assert(full[hl] == ':');
        lemma_find_from_value(full, ':', 0, hl);
        assert(full.subrange(0, hl) =~= h);
        assert(dec_val(full.subrange(0, hl)) == e.len());
        assert(full.subrange(hl + 1, hl + 1 + e.len() as int) =~= e);
        assert(full.subrange(hl + 1 + e.len() as int, full.len() as int) =~= tail_enc);
        lemma_entries_round_trip(l.drop_first());
        assert(decode_entries_spec(full) == Some(seq![e] + l.drop_first()));
        assert(seq![e] + l.drop_first() =~= l);
    }
}

/// Is the character at `j` a decimal digit?
fn digit_at(s: &str, j: usize) -> (r: bool)
    requires
        j < s@.len(),
    ensures
        r == is_digit(s@[j as int]),
{
    let c = s.get_char(j);
    '0' <= c && c <= '9'
}

/// Encodes a list of strings as one snapshot.
pub fn encode_strings(entries: &Vec<String>) -> (r: String)
    ensures
        r@ == encode_entries(entries.deep_view()),
{
    let ghost ev = entries.deep_view();
    let mut r = String::new();
    let mut i: usize = 0;
    proof {
        assert(ev.subrange(0, ev.len() as int) =~= ev);
        assert(r@ + encode_entries(ev) =~= encode_entries(ev));
    }
    while i < entries.len()
        invariant
            0 <= i <= ev.len(),
            ev == entries.deep_view(),
            ev.len() == entries@.len(),
            r@ + encode_entries(ev.subrange(i as int, ev.len() as int)) == encode_entries(ev),
        decreases ev.len() - i,
    {
        let ghost tail = ev.subrange(i as int, ev.len() as int);
        proof {
            assert(tail[0] == ev[i as int]);
            assert(tail.drop_first() =~= ev.subrange(i + 1 as int, ev.len() as int));
            assert(ev[i as int] == entries@[i as int]@);
        }
        let entry = &entries[i];
        let n: usize = entry.as_str().unicode_len();
        append_u64(&mut r, n as u64);
        r.append(":");
        r.append(entry.as_str());
        proof {
            reveal_strlit(":");
            assert(":"@ =~= seq![':']);
            assert(r@ + encode_entries(ev.subrange(i + 1 as int, ev.len() as int))
                =~= encode_entries(ev));
        }
        i = i + 1;
    }
    proof {
        assert(ev.subrange(ev.len() as int, ev.len() as int) =~= Seq::<Seq<char>>::empty());
        assert(r@ + Seq::<char>::empty() =~= r@);
    }
    r
}

/// Decodes one snapshot back into its entries; `None` exactly when the
/// text is not a well-formed snapshot.
pub fn decode_strings(s: &str) -> (r: Option<Vec<String>>)
    ensures
        match r {
            Some(v) => decode_entries_spec(s@) == Some(v.deep_view()),
            None => decode_entries_spec(s@) is None,
        },
{
    let n: usize = s.unicode_len();
    let mut out: Vec<String> = Vec::new();
    let mut pos: usize = 0;
    proof {
        assert(s@.subrange(0, n as int) =~= s@);
        assert(out.deep_view() =~= Seq::<Seq<char>>::empty());
    }
    while pos < n
        invariant
            0 <= pos <= n,
            n == s@.len(),
            decode_entries_spec(s@) is Some <==> decode_entries_spec(
                s@.subrange(pos as int, n as int),
            ) is Some,
            decode_entries_spec(s@.subrange(pos as int, n as int)) is Some
                ==> decode_entries_spec(s@) == Some(
                out.deep_view() + decode_entries_spec(s@.subrange(pos as int, n as int))->0,
            ),
        decreases n - pos,
    {
        let ghost tail = s@.subrange(pos as int, n as int);
        let mut j: usize = pos;
        while j < n && digit_at(s, j)
            invariant
                pos <= j <= n,
                n == s@.len(),
                forall|k: int| pos <= k < j ==> is_digit(#[trigger] s@[k]),
            decreases n - j,
        {
            j = j + 1;
        }
        if j == pos || j == n {
            proof {
                if j == pos {
                    // the header is empty or starts with a non-digit
                    if find_from(tail, ':', 0) < tail.len() {
                        let jj = find_from(tail, ':', 0);
                        crate::strutil::lemma_find_from_props(tail, ':', 0);
                        if jj > 0 {
                            assert(tail[0] == s@[pos as int]);
                            assert(!is_digit(tail.subrange(0, jj)[0]));
                        }
                    }
                } else {
                    // digits run to the end: no colon anywhere
                    assert forall|k: int| 0 <= k < tail.len() implies tail[k] != ':' by {
                        assert(tail[k] == s@[pos + k]);
                        assert(is_digit(s@[pos + k]));
                    }
                    lemma_find_from_value(tail, ':', 0, tail.len() as int);
                }
            }
            return None;
        }
        let c = s.get_char(j);
        if c != ':' {
            proof {
                // the character after the digit run is neither digit nor
                // colon, so the header up to any colon is not all digits
                if find_from(tail, ':', 0) < tail.len() {
                    let jj = find_from(tail, ':', 0);
                    crate::strutil::lemma_find_from_props(tail, ':', 0);
                    assert(tail[j - pos] == s@[j as int]);
                    assert(jj != j - pos);
                    if jj > j - pos {
                        assert(!is_digit(tail.subrange(0, jj)[j - pos]));
                    } else {
                        assert(s@[pos + jj] == ':');
                        assert(is_digit(s@[pos + jj]));
                    }
                }
            }
            return None;
        }
        proof {
            assert forall|k: int| 0 <= k < j - pos implies tail[k] != ':' by {
                assert(tail[k] == s@[pos + k]);
                assert(is_digit(s@[pos + k]));
            }
            assert(tail[j - pos] == ':');
            lemma_find_from_value(tail, ':', 0, j - pos);
        }
        let ghost header = tail.subrange(0, j - pos);
        proof {
            assert forall|k: int| 0 <= k < header.len() implies is_digit(
                #[trigger] header[k],
            ) by {
                assert(header[k] == s@[pos + k]);
            }
            assert(header.subrange(0, 0) =~= Seq::<char>::empty());
        }
        // parse the length, bailing out once it cannot fit the remainder
        let rem: usize = n - j - 1;
        let mut len_val: usize = 0;
        let mut p: usize = pos;
        while p < j
            invariant
                pos < j < n,
                pos <= p <= j,
                n == s@.len(),
                tail == s@.subrange(pos as int, n as int),
                header == tail.subrange(0, j - pos),
                header.len() == j - pos,
                all_digits(header),
                find_from(tail, ':', 0) == j - pos,
                decode_entries_spec(s@) is Some <==> decode_entries_spec(tail) is Some,
                forall|k: int| pos <= k < j ==> is_digit(#[trigger] s@[k]),
                rem == n - j - 1,
                len_val as int == dec_val(header.subrange(0, p - pos)),
                len_val <= rem,
            decreases j - p,
        {
            let c2 = s.get_char(p);
            let d: usize = ((c2 as u32) - ('0' as u32)) as usize;
            proof {
                assert(header[p - pos] == s@[p as int]);
                assert(is_digit(s@[p as int]));
                assert(d as int == digit_val(header[p - pos]));
                lemma_dec_val_step(header, p - pos);
            }
            let over = if d > rem {
                true
            } else {
                len_val > (rem - d) / 10
            };
            if over {
                proof {
                    lemma_dec_val_nonneg(header.subrange(0, p - pos));
                    if d > rem {
                        assert(len_val * 10 + d > rem) by (nonlinear_arith)
                            requires
                                d > rem,
                                len_val >= 0,
                        ;
                    } else {
                        assert(len_val * 10 + d > rem) by (nonlinear_arith)
                            requires
                                len_val > (rem - d) / 10,
                                d <= 9,
                                d <= rem,
                                len_val >= 0,
                        ;
                    }
                    assert(dec_val(header.subrange(0, p - pos + 1)) > rem);
                    lemma_dec_val_prefix_bound(header, p - pos + 1);
                    assert(dec_val(header) > rem);
                    assert(decode_entries_spec(tail) is None);
                }
                return None;
            }
            len_val = len_val * 10 + d;
            p = p + 1;
        }
        proof {
            assert(header.subrange(0, j - pos) =~= header);
            assert(len_val as int == dec_val(header));
        }
        let body = s.substring_char(j + 1, j + 1 + len_val).to_owned();
        let ghost out0 = out.deep_view();
        out.push(body);
        proof {
            assert(tail.subrange(j - pos + 1, j - pos + 1 + len_val as int) =~= s@.subrange(
                j + 1 as int,
                j + 1 + len_val as int,
            ));
            assert(tail.subrange(j - pos + 1 + len_val as int, tail.len() as int) =~= s@.subrange(
                j + 1 + len_val as int,
                n as int,
            ));
            assert(out.deep_view() =~= out0 + seq![
                s@.subrange(j + 1 as int, j + 1 + len_val as int),
            ]);
        }
        pos = j + 1 + len_val;
    }
    proof {
        assert(s@.subrange(n as int, n as int) =~= Seq::<char>::empty());
        assert(out.deep_view() + Seq::<Seq<char>>::empty() =~= out.deep_view());
    }
    Some(out)
}

/// A subscription flattened to three snapshot entries: destination,
/// filter, owner in decimal.
pub open spec fn flatten_chats(s: Seq<ChatView>) -> Seq<Seq<char>>
    decreases s.len(),
{
    if s.len() == 0 {
        Seq::empty()
    } else {
        seq![s[0].chat_name, s[0].filter, dec_int(s[0].requester)] + flatten_chats(
            s.drop_first(),
        )
    }
}

/// Reassembles subscriptions from snapshot entries, three at a time;
/// nothing when the count is off or an owner field is not a number.
pub open spec fn unflatten_chats(l: Seq<Seq<char>>) -> Option<Seq<ChatView>>
    decreases l.len(),
{
    if l.len() == 0 {
        Some(Seq::empty())
    } else if l.len() < 3 {
        None
    } else if !valid_i64_lit(l[2]) {
        None
    } else {
        match unflatten_chats(l.subrange(3, l.len() as int)) {
            Some(cs) => Some(
                seq![
                    ChatView { chat_name: l[0], filter: l[1], requester: i64_lit_val(l[2]) },
                ] + cs,
            ),
            None => None,
        }
    }
}

/// Law: flattening subscriptions and reading them back gives them back
/// unchanged.
pub proof fn lemma_chats_flatten_round_trip(s: Seq<ChatView>)
    requires
        forall|i: int|
            0 <= i < s.len() ==> i64::MIN <= (#[trigger] s[i]).requester <= i64::MAX,
    ensures
        unflatten_chats(flatten_chats(s)) == Some(s),
    decreases s.len(),
{
    if s.len() == 0 {
        assert(s =~= Seq::<ChatView>::empty());
    } else {
        let l = flatten_chats(s);
        lemma_parse_of_dec_int(s[0].requester);
        assert(l.subrange(3, l.len() as int) =~= flatten_chats(s.drop_first()));
        let d = s.drop_first();
        assert forall|i: int| 0 <= i < d.len() implies i64::MIN <= (#[trigger] d[i]).requester
            <= i64::MAX by {
            assert(d[i] == s[i + 1]);
        }
        lemma_chats_flatten_round_trip(s.drop_first());
        assert(seq![
            ChatView { chat_name: l[0], filter: l[1], requester: i64_lit_val(l[2]) },
        ] + s.drop_first() =~= s);
    }
}

/// Law: a subscription snapshot decodes back to the same subscriptions.
pub proof fn lemma_chats_round_trip(s: Seq<ChatView>)
    requires
        forall|i: int|
            0 <= i < s.len() ==> i64::MIN <= (#[trigger] s[i]).requester <= i64::MAX,
    ensures
        decode_entries_spec(encode_entries(flatten_chats(s))) == Some(flatten_chats(s)),
        unflatten_chats(flatten_chats(s)) == Some(s),
{
    lemma_entries_round_trip(flatten_chats(s));
    lemma_chats_flatten_round_trip(s);
}

/// Flattens the store to its snapshot entries.
pub fn flatten_store(store: &SubscriptionStore) -> (v: Vec<String>)
    ensures
        v.deep_view() == flatten_chats(store@),
{
    let ghost cv = store@;
    let chats = store.snapshot();
    let mut v: Vec<String> = Vec::new();
    let mut i: usize = 0;
    proof {
        assert(cv.subrange(0, cv.len() as int) =~= cv);
        assert(v.deep_view() + flatten_chats(cv) =~= flatten_chats(cv));
    }
    while i < chats.len()
        invariant
            0 <= i <= cv.len(),
            chats@.len() == cv.len(),
            forall|k: int| 0 <= k < cv.len() ==> #[trigger] chats@[k]@ == cv[k],
            v.deep_view() + flatten_chats(cv.subrange(i as int, cv.len() as int)) == flatten_chats(
                cv,
            ),
        decreases cv.len() - i,
    {
        let ghost tail = cv.subrange(i as int, cv.len() as int);
        let ghost v0 = v.deep_view();
        proof {
            assert(tail[0] == cv[i as int]);
            assert(tail.drop_first() =~= cv.subrange(i + 1 as int, cv.len() as int));
        }
        let chat = &chats[i];
        proof {
            assert(chat@ == cv[i as int]);
        }
        v.push(chat.chat_name.clone());
        v.push(chat.filter.clone());
        v.push(i64_to_string(chat.requester));
        proof {
            assert(v.deep_view() =~= v0 + seq![
                cv[i as int].chat_name,
                cv[i as int].filter,
                dec_int(cv[i as int].requester),
            ]);
            assert(v.deep_view() + flatten_chats(cv.subrange(i + 1 as int, cv.len() as int))
                =~= flatten_chats(cv));
        }
        i = i + 1;
    }
    proof {
        assert(cv.subrange(cv.len() as int, cv.len() as int) =~= Seq::<ChatView>::empty());
        assert(v.deep_view() + Seq::<Seq<char>>::empty() =~= v.deep_view());
    }
    v
}

/// Encodes the subscription store as one snapshot.
pub fn encode_chats(store: &SubscriptionStore) -> (r: String)
    ensures
        r@ == encode_entries(flatten_chats(store@)),
{
    let flat = flatten_store(store);
    encode_strings(&flat)
}

/// Encodes the seen-hash set as one snapshot.
pub fn encode_seen(seen: &SeenSet) -> (r: String)
    ensures
        r@ == encode_entries(seen@),
{
    encode_strings(seen.entries())
}

/// Decodes a subscription snapshot; `None` exactly when the text is not a
/// well-formed snapshot of whole subscriptions.
pub fn decode_chats(s: &str) -> (r: Option<Vec<Chat>>)
    ensures
        match r {
            Some(v) => decode_entries_spec(s@) is Some && unflatten_chats(
                decode_entries_spec(s@)->0,
            ) == Some(chats_view(v@)),
            None => decode_entries_spec(s@) is None || unflatten_chats(
                decode_entries_spec(s@)->0,
            ) is None,
        },
{
    let parts = match decode_strings(s) {
        Some(p) => p,
        None => {
            return None;
        },
    };
    let ghost lv = parts.deep_view();
    let mut out: Vec<Chat> = Vec::new();
    let mut k: usize = 0;
    proof {
        assert(lv.subrange(0, lv.len() as int) =~= lv);
        assert(chats_view(out@) =~= Seq::<ChatView>::empty());
    }
    while k < parts.len()
        invariant
            0 <= k <= lv.len(),
            lv == parts.deep_view(),
            lv.len() == parts@.len(),
            decode_entries_spec(s@) == Some(lv),
            unflatten_chats(lv) is Some <==> unflatten_chats(
                lv.subrange(k as int, lv.len() as int),
            ) is Some,
            unflatten_chats(lv.subrange(k as int, lv.len() as int)) is Some ==> unflatten_chats(
                lv,
            )->0 == chats_view(out@) + unflatten_chats(
                lv.subrange(k as int, lv.len() as int),
            )->0,
        decreases lv.len() - k,
    {
        let ghost tail = lv.subrange(k as int, lv.len() as int);
        if parts.len() - k < 3 {
            return None;
        }
        proof {
            assert(tail[0] == lv[k as int] && lv[k as int] == parts@[k as int]@);
            assert(tail[1] == lv[k + 1] && lv[k + 1] == parts@[k + 1]@);
            assert(tail[2] == lv[k + 2] && lv[k + 2] == parts@[k + 2]@);
            assert(tail.subrange(3, tail.len() as int) =~= lv.subrange(
                k + 3 as int,
                lv.len() as int,
            ));
        }
        let requester = match parse_i64(parts[k + 2].as_str()) {
            Some(v) => v,
            None => {
                return None;
            },
        };
        let ghost out0 = chats_view(out@);
        let chat = Chat::new(
            parts[k].as_str(),
            parts[k + 1].as_str(),
            requester,
        );
        out.push(chat);
        proof {
            assert(chats_view(out@) =~= out0 + seq![
                ChatView {
                    chat_name: tail[0],
                    filter: tail[1],
                    requester: i64_lit_val(tail[2]),
                },
            ]);
        }
        k = k + 3;
    }
    proof {
        assert(lv.subrange(lv.len() as int, lv.len() as int) =~= Seq::<Seq<char>>::empty());
        assert(chats_view(out@) + Seq::<ChatView>::empty() =~= chats_view(out@));
    }
    Some(out)
}

} // verus!
