//! The wire codec: pipe-delimited UTF-8 text frames, each sent as the whole
//! payload of one short-lived connection.  The receiver splits on `|` and
//! trims surrounding whitespace from every field before matching.

use vstd::prelude::*;

use crate::bytes::push_all;
use crate::bytes::split_at_byte;
use crate::bytes::split_bytes;
use crate::bytes::trim_bytes;
use crate::bytes::trim_spec;
use crate::bytes::views;

verus! {

/// The `JOIN_REQUEST` tag.
pub open spec fn join_request_tag() -> Seq<u8> {
    seq![74u8, 79, 73, 78, 95, 82, 69, 81, 85, 69, 83, 84]
}

/// The `GET_CONNECTED_NODES_REQUEST` tag.
pub open spec fn get_nodes_tag() -> Seq<u8> {
    seq![71u8, 69, 84, 95, 67, 79, 78, 78, 69, 67, 84, 69, 68, 95, 78, 79, 68, 69, 83, 95, 82, 69, 81, 85, 69, 83, 84]
}

/// The `DEAD_NODE` tag.
pub open spec fn dead_node_tag() -> Seq<u8> {
    seq![68u8, 69, 65, 68, 95, 78, 79, 68, 69]
}

/// The `LIVENESS_REQUEST` tag.
pub open spec fn liveness_request_tag() -> Seq<u8> {
    seq![76u8, 73, 86, 69, 78, 69, 83, 83, 95, 82, 69, 81, 85, 69, 83, 84]
}

/// The `LIVENESS_REPLY` tag.
pub open spec fn liveness_reply_tag() -> Seq<u8> {
    seq![76u8, 73, 86, 69, 78, 69, 83, 83, 95, 82, 69, 80, 76, 89]
}

/// `Successfully Connected to ` — the ack line up to the quoted address.
pub open spec fn ack_prefix() -> Seq<u8> {
    seq![83u8, 117, 99, 99, 101, 115, 115, 102, 117, 108, 108, 121, 32, 67, 111, 110, 110, 101, 99, 116, 101, 100, 32, 116, 111, 32]
}

/// `Connected Nodes: [` — the directory reply up to the first item.
pub open spec fn directory_prefix() -> Seq<u8> {
    seq![67u8, 111, 110, 110, 101, 99, 116, 101, 100, 32, 78, 111, 100, 101, 115, 58, 32, 91]
}

/// Three fields joined by `|`.
pub open spec fn frame3(f0: Seq<u8>, f1: Seq<u8>, f2: Seq<u8>) -> Seq<u8> {
    f0 + seq![124u8] + f1 + seq![124u8] + f2
}

/// Four fields joined by `|`.
pub open spec fn frame4(f0: Seq<u8>, f1: Seq<u8>, f2: Seq<u8>, f3: Seq<u8>) -> Seq<u8> {
    f0 + seq![124u8] + f1 + seq![124u8] + f2 + seq![124u8] + f3
}

/// `JOIN_REQUEST|<peer_addr>|<ts>`
pub open spec fn join_frame(addr: Seq<u8>, ts: Seq<u8>) -> Seq<u8> {
    frame3(join_request_tag(), addr, ts)
}

/// `GET_CONNECTED_NODES_REQUEST|<peer_addr>|<ts>`
pub open spec fn get_nodes_frame(addr: Seq<u8>, ts: Seq<u8>) -> Seq<u8> {
    frame3(get_nodes_tag(), addr, ts)
}

/// `DEAD_NODE|<dead_addr>|<ts>|<reporter_addr>`
pub open spec fn dead_node_frame(dead: Seq<u8>, ts: Seq<u8>, reporter: Seq<u8>) -> Seq<u8> {
    frame4(dead_node_tag(), dead, ts, reporter)
}

/// `LIVENESS_REQUEST|<ts>|<sender_addr>`
pub open spec fn liveness_request_frame(ts: Seq<u8>, sender: Seq<u8>) -> Seq<u8> {
    frame3(liveness_request_tag(), ts, sender)
}

/// `LIVENESS_REPLY|<orig_ts>|<sender_addr_echo>|<responder_addr>`
pub open spec fn liveness_reply_frame(ts: Seq<u8>, echo: Seq<u8>, responder: Seq<u8>) -> Seq<u8> {
    frame4(liveness_reply_tag(), ts, echo, responder)
}

/// `<ts>|<origin_addr>|<payload>` — a gossip frame has no tag of its own.
pub open spec fn gossip_frame(ts: Seq<u8>, origin: Seq<u8>, payload: Seq<u8>) -> Seq<u8> {
    frame3(ts, origin, payload)
}

/// An item as the standard debug formatter quotes it.
pub open spec fn quoted(item: Seq<u8>) -> Seq<u8> {
    seq![34u8] + item + seq![34u8]
}

/// The quoted items joined by `, `.
pub open spec fn comma_join_quoted(items: Seq<Seq<u8>>) -> Seq<u8>
    decreases items.len(),
{
    if items.len() == 0 {
        Seq::empty()
    } else if items.len() == 1 {
        quoted(items[0])
    } else {
        quoted(items[0]) + seq![44u8, 32u8] + comma_join_quoted(items.drop_first())
    }
}

/// `Connected Nodes: [<csv of quoted endpoints>]`
pub open spec fn directory_reply(items: Seq<Seq<u8>>) -> Seq<u8> {
    directory_prefix() + comma_join_quoted(items) + seq![93u8]
}

/// `Successfully Connected to "<peer_addr>"`
pub open spec fn ack_reply(addr: Seq<u8>) -> Seq<u8> {
    ack_prefix() + quoted(addr)
}

/// The fields a receiver sees: split on `|`, every field trimmed.
pub open spec fn parsed_fields(raw: Seq<u8>) -> Seq<Seq<u8>> {
    split_bytes(raw, 124).map_values(|f: Seq<u8>| trim_spec(f))
}

/// The `JOIN_REQUEST` tag as bytes.
pub fn join_request_tag_vec() -> (r: Vec<u8>)
    ensures
        r@ == join_request_tag(),
{
    let r: Vec<u8> = vec![74, 79, 73, 78, 95, 82, 69, 81, 85, 69, 83, 84];
    proof {
        assert(r@ =~= join_request_tag());
    }
    r
}

/// The `GET_CONNECTED_NODES_REQUEST` tag as bytes.
pub fn get_nodes_tag_vec() -> (r: Vec<u8>)
    ensures
        r@ == get_nodes_tag(),
{
    let r: Vec<u8> = vec![71, 69, 84, 95, 67, 79, 78, 78, 69, 67, 84, 69, 68, 95, 78, 79, 68, 69,
        83, 95, 82, 69, 81, 85, 69, 83, 84];
    proof {
        assert(r@ =~= get_nodes_tag());
    }
    r
}

/// The `DEAD_NODE` tag as bytes.
pub fn dead_node_tag_vec() -> (r: Vec<u8>)
    ensures
        r@ == dead_node_tag(),
{
    let r: Vec<u8> = vec![68, 69, 65, 68, 95, 78, 79, 68, 69];
    proof {
        assert(r@ =~= dead_node_tag());
    }
    r
}

/// The `LIVENESS_REQUEST` tag as bytes.
pub fn liveness_request_tag_vec() -> (r: Vec<u8>)
    ensures
        r@ == liveness_request_tag(),
{
    let r: Vec<u8> = vec![76, 73, 86, 69, 78, 69, 83, 83, 95, 82, 69, 81, 85, 69, 83, 84];
    proof {
        assert(r@ =~= liveness_request_tag());
    }
    r
}

/// The `LIVENESS_REPLY` tag as bytes.
pub fn liveness_reply_tag_vec() -> (r: Vec<u8>)
    ensures
        r@ == liveness_reply_tag(),
{
    let r: Vec<u8> = vec![76, 73, 86, 69, 78, 69, 83, 83, 95, 82, 69, 80, 76, 89];
    proof {
        assert(r@ =~= liveness_reply_tag());
    }
    r
}

/// Builds `f0|f1|f2`.
pub fn build_frame3(f0: &[u8], f1: &[u8], f2: &[u8]) -> (r: Vec<u8>)
    ensures
        r@ == frame3(f0@, f1@, f2@),
{
    let mut r: Vec<u8> = Vec::new();
    push_all(&mut r, f0);
    r.push(124);
    push_all(&mut r, f1);
    r.push(124);
    push_all(&mut r, f2);
    proof {
        assert(r@ =~= frame3(f0@, f1@, f2@));
    }
    r
}

/// Builds `f0|f1|f2|f3`.
pub fn build_frame4(f0: &[u8], f1: &[u8], f2: &[u8], f3: &[u8]) -> (r: Vec<u8>)
    ensures
        r@ == frame4(f0@, f1@, f2@, f3@),
{
    let mut r: Vec<u8> = Vec::new();
    push_all(&mut r, f0);
    r.push(124);
    push_all(&mut r, f1);
    r.push(124);
    push_all(&mut r, f2);
    r.push(124);
    push_all(&mut r, f3);
    proof {
        assert(r@ =~= frame4(f0@, f1@, f2@, f3@));
    }
    r
}

/// Splits on `d` and trims every field.
pub fn split_trim(raw: &[u8], d: u8) -> (r: Vec<Vec<u8>>)
    ensures
        views(r@) == split_bytes(raw@, d).map_values(|f: Seq<u8>| trim_spec(f)),
        r@.len() >= 1,
{
    let parts = split_at_byte(raw, d);
    let mut r: Vec<Vec<u8>> = Vec::new();
    let mut i: usize = 0;
    while i < parts.len()
        invariant
            0 <= i <= parts@.len(),
            views(parts@) == split_bytes(raw@, d),
            r@.len() == i,
            forall|j: int| 0 <= j < i ==> r@[j]@ == trim_spec(#[trigger] parts@[j]@),
        decreases parts@.len() - i,
    {
        let t = trim_bytes(parts[i].as_slice());
        r.push(t);
        i += 1;
    }
    proof {
        let target = split_bytes(raw@, d).map_values(|f: Seq<u8>| trim_spec(f));
        assert forall|j: int| 0 <= j < r@.len() implies views(r@)[j] == target[j] by {
            assert(views(parts@)[j] == parts@[j]@);
        }
        assert(views(r@) =~= target);
    }
    r
}

/// A byte the directory parser keeps: everything but `]`, `\` and `"`.
pub open spec fn is_dir_keep(b: u8) -> bool {
    b != 93 && b != 92 && b != 34
}

/// An endpoint that survives the codec unchanged: nonempty, without
/// whitespace, and without the delimiter and decoration bytes
/// `|`, `"`, `\`, `[`, `]` and `,`.
pub open spec fn is_clean_endpoint(s: Seq<u8>) -> bool {
    s.len() > 0 && forall|j: int|
        0 <= j < s.len() ==> !crate::bytes::is_space(#[trigger] s[j]) && s[j] != 124 && s[j] != 34
            && s[j] != 92 && s[j] != 91 && s[j] != 93 && s[j] != 44
}

/// The reply without its `Connected Nodes: [` prefix, when it has one.
pub open spec fn strip_directory_prefix(s: Seq<u8>) -> Seq<u8> {
    if s.len() >= directory_prefix().len() && s.take(directory_prefix().len() as int)
        == directory_prefix() {
        s.skip(directory_prefix().len() as int)
    } else {
        s
    }
}

/// What the peer reads out of a directory reply: trim the whole reply,
/// strip the prefix, drop `]`, `\` and `"`, split on commas, trim each token.
pub open spec fn extract_nodes_spec(reply: Seq<u8>) -> Seq<Seq<u8>> {
    split_bytes(
        strip_directory_prefix(trim_spec(reply)).filter(|b: u8| is_dir_keep(b)),
        44,
    ).map_values(|f: Seq<u8>| trim_spec(f))
}

/// The ack prefix `Successfully Connected to ` as bytes.
pub fn ack_prefix_vec() -> (r: Vec<u8>)
    ensures
        r@ == ack_prefix(),
{
    let r: Vec<u8> = vec![83, 117, 99, 99, 101, 115, 115, 102, 117, 108, 108, 121, 32, 67, 111,
        110, 110, 101, 99, 116, 101, 100, 32, 116, 111, 32];
    proof {
        assert(r@ =~= ack_prefix());
    }
    r
}

/// The directory prefix `Connected Nodes: [` as bytes.
pub fn directory_prefix_vec() -> (r: Vec<u8>)
    ensures
        r@ == directory_prefix(),
{
    let r: Vec<u8> = vec![67, 111, 110, 110, 101, 99, 116, 101, 100, 32, 78, 111, 100, 101, 115,
        58, 32, 91];
    proof {
        assert(r@ =~= directory_prefix());
    }
    r
}

/// Builds `Successfully Connected to "<addr>"`.
pub fn build_ack_reply(addr: &[u8]) -> (r: Vec<u8>)
    ensures
        r@ == ack_reply(addr@),
{
    let mut r = ack_prefix_vec();
    r.push(34);
    push_all(&mut r, addr);
    r.push(34);
    proof {
        assert(r@ =~= ack_reply(addr@));
    }
    r
}

/// Appending one more item extends the comma-separated body.
proof fn lemma_comma_join_push(items: Seq<Seq<u8>>, x: Seq<u8>)
    ensures
        comma_join_quoted(items.push(x)) == if items.len() == 0 {
            quoted(x)
        } else {
            comma_join_quoted(items) + seq![44u8, 32u8] + comma_join_quoted(seq![x])
        },
    decreases items.len(),
{
    if items.len() == 0 {
        assert(items.push(x) =~= seq![x]);
        assert(comma_join_quoted(seq![x]) == quoted(x));
    } else if items.len() == 1 {
        assert(items.push(x).drop_first() =~= seq![x]);
        assert(items.push(x)[0] == items[0]);
        assert(comma_join_quoted(items) == quoted(items[0]));
    } else {
        assert(items.push(x).drop_first() =~= items.drop_first().push(x));
        lemma_comma_join_push(items.drop_first(), x);
        assert(comma_join_quoted(items.push(x)) == quoted(items[0]) + seq![44u8, 32u8] + (
        comma_join_quoted(items.drop_first()) + seq![44u8, 32u8] + comma_join_quoted(seq![x])));
        assert(quoted(items[0]) + seq![44u8, 32u8] + (comma_join_quoted(items.drop_first())
            + seq![44u8, 32u8] + comma_join_quoted(seq![x])) =~= (quoted(items[0]) + seq![
            44u8,
            32u8,
        ] + comma_join_quoted(items.drop_first())) + seq![44u8, 32u8] + comma_join_quoted(
            seq![x],
        ));
    }
}

/// Builds `Connected Nodes: [<csv of quoted items>]`.
pub fn build_directory_reply(items: &Vec<Vec<u8>>) -> (r: Vec<u8>)
    ensures
        r@ == directory_reply(views(items@)),
{
    let mut r = directory_prefix_vec();
    let mut i: usize = 0;
    proof {
        assert(views(items@).take(0) =~= Seq::<Seq<u8>>::empty());
        assert(r@ =~= directory_prefix() + comma_join_quoted(views(items@).take(0)));
    }
    while i < items.len()
        invariant
            0 <= i <= items@.len(),
            r@ == directory_prefix() + comma_join_quoted(views(items@).take(i as int)),
        decreases items@.len() - i,
    {
        let ghost pre = views(items@).take(i as int);
        if i > 0 {
            r.push(44);
            r.push(32);
        }
        r.push(34);
        push_all(&mut r, items[i].as_slice());
        r.push(34);
        proof {
            lemma_comma_join_push(pre, items@[i as int]@);
            assert(views(items@).take(i + 1 as int) =~= pre.push(items@[i as int]@));
            assert(comma_join_quoted(seq![items@[i as int]@]) == quoted(items@[i as int]@));
            if i == 0 {
                assert(r@ =~= directory_prefix() + comma_join_quoted(
                    views(items@).take(i + 1 as int),
                ));
            } else {
                assert(r@ =~= directory_prefix() + comma_join_quoted(
                    views(items@).take(i + 1 as int),
                ));
            }
        }
        i += 1;
    }
    r.push(93);
    proof {
        assert(views(items@).take(items@.len() as int) =~= views(items@));
        assert(r@ =~= directory_reply(views(items@)));
    }
    r
}

/// Parses a directory reply into endpoint tokens, by the surgery the
/// protocol prescribes: strip the decoration, split on commas, trim.
pub fn extract_nodes(reply: &[u8]) -> (r: Vec<Vec<u8>>)
    ensures
        views(r@) == extract_nodes_spec(reply@),
        r@.len() >= 1,
{
    let t = trim_bytes(reply);
    let prefix = directory_prefix_vec();
    let stripped: Vec<u8> = if crate::bytes::starts_with(t.as_slice(), prefix.as_slice()) {
        crate::bytes::skip_bytes(t.as_slice(), prefix.len())
    } else {
        let mut c: Vec<u8> = Vec::new();
        push_all(&mut c, t.as_slice());
        proof {
            assert(c@ =~= t@);
        }
        c
    };
    proof {
        assert(stripped@ == strip_directory_prefix(trim_spec(reply@)));
    }
    let mut cleaned: Vec<u8> = Vec::new();
    let mut i: usize = 0;
    proof {
        reveal(Seq::filter);
        assert(stripped@.take(0) =~= Seq::<u8>::empty());
        assert(cleaned@ =~= stripped@.take(0).filter(|b: u8| is_dir_keep(b)));
    }
    while i < stripped.len()
        invariant
            0 <= i <= stripped@.len(),
            cleaned@ == stripped@.take(i as int).filter(|b: u8| is_dir_keep(b)),
        decreases stripped@.len() - i,
    {
        let b = stripped[i];
        if b != 93 && b != 92 && b != 34 {
            cleaned.push(b);
        }
        proof {
            reveal(Seq::filter);
            assert(stripped@.take(i + 1 as int).drop_last() =~= stripped@.take(i as int));
            assert(stripped@.take(i + 1 as int).last() == stripped@[i as int]);
        }
        i += 1;
    }
    proof {
        assert(stripped@.take(stripped@.len() as int) =~= stripped@);
    }
    split_trim(cleaned.as_slice(), 44)
}

/// Splits a raw frame on `|` and trims every field.
pub fn parse_fields(raw: &[u8]) -> (r: Vec<Vec<u8>>)
    ensures
        views(r@) == parsed_fields(raw@),
        r@.len() >= 1,
{
    split_trim(raw, 124)
}

/// A frame of three `|`-free, pre-trimmed fields parses back to them.
pub proof fn lemma_frame3_parsed(f0: Seq<u8>, f1: Seq<u8>, f2: Seq<u8>)
    requires
        forall|j: int| 0 <= j < f0.len() ==> f0[j] != 124,
        forall|j: int| 0 <= j < f1.len() ==> f1[j] != 124,
        forall|j: int| 0 <= j < f2.len() ==> f2[j] != 124,
        trim_spec(f0) == f0,
        trim_spec(f1) == f1,
        trim_spec(f2) == f2,
    ensures
        parsed_fields(frame3(f0, f1, f2)) == seq![f0, f1, f2],
{
    assert(frame3(f0, f1, f2) =~= f0 + seq![124u8] + (f1 + seq![124u8] + f2));
    crate::bytes::lemma_split_prepend(f0, f1 + seq![124u8] + f2, 124);
    crate::bytes::lemma_split_prepend(f1, f2, 124);
    crate::bytes::lemma_split_whole(f2, 124);
    let sp = split_bytes(frame3(f0, f1, f2), 124);
    assert(sp =~= seq![f0, f1, f2]);
    assert(parsed_fields(frame3(f0, f1, f2)) =~= seq![f0, f1, f2]);
}

/// A frame of four `|`-free, pre-trimmed fields parses back to them.
pub proof fn lemma_frame4_parsed(f0: Seq<u8>, f1: Seq<u8>, f2: Seq<u8>, f3: Seq<u8>)
    requires
        forall|j: int| 0 <= j < f0.len() ==> f0[j] != 124,
        forall|j: int| 0 <= j < f1.len() ==> f1[j] != 124,
        forall|j: int| 0 <= j < f2.len() ==> f2[j] != 124,
        forall|j: int| 0 <= j < f3.len() ==> f3[j] != 124,
        trim_spec(f0) == f0,
        trim_spec(f1) == f1,
        trim_spec(f2) == f2,
        trim_spec(f3) == f3,
    ensures
        parsed_fields(frame4(f0, f1, f2, f3)) == seq![f0, f1, f2, f3],
{
    assert(frame4(f0, f1, f2, f3) =~= f0 + seq![124u8] + (f1 + seq![124u8] + (f2 + seq![124u8]
        + f3)));
    crate::bytes::lemma_split_prepend(f0, f1 + seq![124u8] + (f2 + seq![124u8] + f3), 124);
    crate::bytes::lemma_split_prepend(f1, f2 + seq![124u8] + f3, 124);
    crate::bytes::lemma_split_prepend(f2, f3, 124);
    crate::bytes::lemma_split_whole(f3, 124);
    let sp = split_bytes(frame4(f0, f1, f2, f3), 124);
    assert(sp =~= seq![f0, f1, f2, f3]);
    assert(parsed_fields(frame4(f0, f1, f2, f3)) =~= seq![f0, f1, f2, f3]);
}

/// Wire compatibility of the probe frames: a `LIVENESS_REQUEST` built from
/// any clock value and any clean sender address parses, on the receiving
/// side, back to exactly its tag, timestamp and sender.
pub proof fn lemma_liveness_request_roundtrip(t: int, sender: Seq<u8>)
    requires
        t >= 0,
        is_clean_endpoint(sender),
    ensures
        parsed_fields(liveness_request_frame(crate::clock::timestamp_str(t), sender)) == seq![
            liveness_request_tag(),
            crate::clock::timestamp_str(t),
            sender,
        ],
{
    let ts = crate::clock::timestamp_str(t);
    crate::clock::lemma_timestamp_str_field(t);
    let tag = liveness_request_tag();
    assert(forall|j: int| 0 <= j < tag.len() ==> 65 <= #[trigger] tag[j] <= 95);
    crate::bytes::lemma_trim_id(tag);
    crate::bytes::lemma_trim_id(sender);
    lemma_frame3_parsed(tag, ts, sender);
}

/// The items joined by `, ` without the quotes.
spec fn comma_join_plain(items: Seq<Seq<u8>>) -> Seq<u8>
    decreases items.len(),
{
    if items.len() == 0 {
        Seq::empty()
    } else if items.len() == 1 {
        items[0]
    } else {
        items[0] + seq![44u8, 32u8] + comma_join_plain(items.drop_first())
    }
}

/// The items each led by a space, joined by bare commas.
spec fn tail_join(items: Seq<Seq<u8>>) -> Seq<u8>
    decreases items.len(),
{
    if items.len() == 0 {
        Seq::empty()
    } else if items.len() == 1 {
        seq![32u8] + items[0]
    } else {
        (seq![32u8] + items[0]) + seq![44u8] + tail_join(items.drop_first())
    }
}

/// Filtering keeps a string that holds no dropped byte.
proof fn lemma_filter_keep_all(s: Seq<u8>)
    requires
        forall|j: int| 0 <= j < s.len() ==> is_dir_keep(#[trigger] s[j]),
    ensures
        s.filter(|b: u8| is_dir_keep(b)) == s,
    decreases s.len(),
{
    reveal(Seq::filter);
    if s.len() > 0 {
        lemma_filter_keep_all(s.drop_last());
        assert(s.drop_last().push(s.last()) =~= s);
    }
}

/// Filtering a quoted clean item drops exactly the two quotes.
proof fn lemma_filter_quoted(item: Seq<u8>)
    requires
        is_clean_endpoint(item),
    ensures
        quoted(item).filter(|b: u8| is_dir_keep(b)) == item,
{
    reveal(Seq::filter);
    broadcast use vstd::seq_lib::group_seq_lib_default;

    assert(seq![34u8].drop_last() =~= Seq::<u8>::empty());
    assert(Seq::<u8>::empty().filter(|b: u8| is_dir_keep(b)) =~= Seq::<u8>::empty());
    assert(seq![34u8].filter(|b: u8| is_dir_keep(b)) =~= Seq::<u8>::empty());
    lemma_filter_keep_all(item);
    Seq::filter_distributes_over_add(seq![34u8] + item, seq![34u8], |b: u8| is_dir_keep(b));
    Seq::filter_distributes_over_add(seq![34u8], item, |b: u8| is_dir_keep(b));
    assert(quoted(item).filter(|b: u8| is_dir_keep(b)) =~= item);
}

/// Filtering the quoted comma-joined body unquotes every item.
#[verifier::rlimit(50)]
proof fn lemma_filter_join(items: Seq<Seq<u8>>)
    requires
        forall|i: int| 0 <= i < items.len() ==> is_clean_endpoint(#[trigger] items[i]),
    ensures
        comma_join_quoted(items).filter(|b: u8| is_dir_keep(b)) == comma_join_plain(items),
    decreases items.len(),
{
    if items.len() == 0 {
        assert(comma_join_quoted(items).filter(|b: u8| is_dir_keep(b)) =~= Seq::<u8>::empty()) by {
            reveal(Seq::filter);
        }
    } else if items.len() == 1 {
        lemma_filter_quoted(items[0]);
    } else {
        lemma_filter_quoted(items[0]);
        lemma_filter_join(items.drop_first());
        let sep = seq![44u8, 32u8];
        assert(forall|j: int| 0 <= j < sep.len() ==> is_dir_keep(#[trigger] sep[j]));
        lemma_filter_keep_all(sep);
        Seq::filter_distributes_over_add(
            quoted(items[0]) + sep,
            comma_join_quoted(items.drop_first()),
            |b: u8| is_dir_keep(b),
        );
        Seq::filter_distributes_over_add(quoted(items[0]), sep, |b: u8| is_dir_keep(b));
        assert((quoted(items[0]) + sep).filter(|b: u8| is_dir_keep(b)) == items[0] + sep);
        assert(comma_join_quoted(items) == (quoted(items[0]) + sep) + comma_join_quoted(
            items.drop_first(),
        )) by {
            assert(comma_join_quoted(items) =~= (quoted(items[0]) + sep) + comma_join_quoted(
                items.drop_first(),
            ));
        }
        assert(comma_join_quoted(items).filter(|b: u8| is_dir_keep(b)) == (items[0] + sep)
            + comma_join_plain(items.drop_first()));
        assert((items[0] + sep) + comma_join_plain(items.drop_first()) =~= comma_join_plain(items));
    }
}

/// A space before the plain body turns it into the tail shape.
proof fn lemma_tail_of_plain(items: Seq<Seq<u8>>)
    requires
        items.len() >= 1,
    ensures
        seq![32u8] + comma_join_plain(items) == tail_join(items),
    decreases items.len(),
{
    if items.len() == 1 {
    } else {
        lemma_tail_of_plain(items.drop_first());
        assert(seq![32u8] + comma_join_plain(items) =~= (seq![32u8] + items[0]) + seq![44u8] + (
        seq![32u8] + comma_join_plain(items.drop_first())));
    }
}

/// Splitting the tail shape on commas yields one spaced item per field.
proof fn lemma_split_tail(items: Seq<Seq<u8>>)
    requires
        items.len() >= 1,
        forall|i: int| 0 <= i < items.len() ==> is_clean_endpoint(#[trigger] items[i]),
    ensures
        split_bytes(tail_join(items), 44) == Seq::new(
            items.len(),
            |i: int| seq![32u8] + items[i],
        ),
    decreases items.len(),
{
    if items.len() == 1 {
        assert(forall|j: int|
            0 <= j < (seq![32u8] + items[0]).len() ==> (seq![32u8] + items[0])[j] != 44);
        crate::bytes::lemma_split_whole(seq![32u8] + items[0], 44);
        assert(split_bytes(tail_join(items), 44) =~= Seq::new(
            items.len(),
            |i: int| seq![32u8] + items[i],
        ));
    } else {
        lemma_split_tail(items.drop_first());
        assert(forall|j: int|
            0 <= j < (seq![32u8] + items[0]).len() ==> (seq![32u8] + items[0])[j] != 44);
        crate::bytes::lemma_split_prepend(seq![32u8] + items[0], tail_join(items.drop_first()), 44);
        assert(tail_join(items) =~= (seq![32u8] + items[0]) + seq![44u8] + tail_join(
            items.drop_first(),
        ));
        assert(split_bytes(tail_join(items), 44) =~= Seq::new(
            items.len(),
            |i: int| seq![32u8] + items[i],
        ));
    }
}

/// Splitting the unquoted body on commas: the first field is the first item,
/// every later field is its item led by one space.
proof fn lemma_split_plain(items: Seq<Seq<u8>>)
    requires
        items.len() >= 1,
        forall|i: int| 0 <= i < items.len() ==> is_clean_endpoint(#[trigger] items[i]),
    ensures
        split_bytes(comma_join_plain(items), 44) == Seq::new(
            items.len(),
            |i: int|
                if i == 0 {
                    items[i]
                } else {
                    seq![32u8] + items[i]
                },
        ),
    decreases items.len(),
{
    if items.len() == 1 {
        assert(forall|j: int| 0 <= j < items[0].len() ==> items[0][j] != 44);
        crate::bytes::lemma_split_whole(items[0], 44);
        assert(split_bytes(comma_join_plain(items), 44) =~= Seq::new(
            items.len(),
            |i: int|
                if i == 0 {
                    items[i]
                } else {
                    seq![32u8] + items[i]
                },
        ));
    } else {
        lemma_tail_of_plain(items.drop_first());
        lemma_split_tail(items.drop_first());
        assert(forall|j: int| 0 <= j < items[0].len() ==> items[0][j] != 44);
        assert(comma_join_plain(items) =~= items[0] + seq![44u8] + (seq![32u8] + comma_join_plain(
            items.drop_first(),
        )));
        crate::bytes::lemma_split_prepend(
            items[0],
            seq![32u8] + comma_join_plain(items.drop_first()),
            44,
        );
        assert(split_bytes(comma_join_plain(items), 44) =~= Seq::new(
            items.len(),
            |i: int|
                if i == 0 {
                    items[i]
                } else {
                    seq![32u8] + items[i]
                },
        ));
    }
}

/// A clean item with one leading space trims back to itself.
proof fn lemma_trim_spaced_item(item: Seq<u8>)
    requires
        is_clean_endpoint(item),
    ensures
        trim_spec(seq![32u8] + item) == item,
        trim_spec(item) == item,
{
    let s = seq![32u8] + item;
    assert(crate::bytes::is_space(s[0]));
    assert(s.drop_first() =~= item);
    crate::bytes::lemma_trim_id(item);
    assert(crate::bytes::trim_left(s) == crate::bytes::trim_left(item));
    assert(crate::bytes::trim_left(item) == item) by {
        assert(!crate::bytes::is_space(item[0]));
    }
}

/// Parsing a directory reply built from clean endpoints gives back exactly
/// those endpoints; an empty directory parses to one empty token.
pub proof fn lemma_extract_directory(items: Seq<Seq<u8>>)
    requires
        forall|i: int| 0 <= i < items.len() ==> is_clean_endpoint(#[trigger] items[i]),
    ensures
        items.len() > 0 ==> extract_nodes_spec(directory_reply(items)) == items,
        items.len() == 0 ==> extract_nodes_spec(directory_reply(items)) == seq![Seq::<u8>::empty()],
{
    reveal(Seq::filter);
    let reply = directory_reply(items);
    let plen = directory_prefix().len() as int;
    assert(reply[0] == 67);
    assert(reply.last() == 93);
    crate::bytes::lemma_trim_id(reply);
    assert(reply.take(plen) =~= directory_prefix());
    assert(strip_directory_prefix(reply) == reply.skip(plen));
    assert(reply.skip(plen) =~= comma_join_quoted(items) + seq![93u8]);
    lemma_filter_join(items);
    assert(seq![93u8].drop_last() =~= Seq::<u8>::empty());
    assert(Seq::<u8>::empty().filter(|b: u8| is_dir_keep(b)) =~= Seq::<u8>::empty());
    assert(seq![93u8].filter(|b: u8| is_dir_keep(b)) =~= Seq::<u8>::empty());
    Seq::filter_distributes_over_add(comma_join_quoted(items), seq![93u8], |b: u8| is_dir_keep(b));
    let cleaned = reply.skip(plen).filter(|b: u8| is_dir_keep(b));
    assert(cleaned =~= comma_join_plain(items));
    if items.len() == 0 {
        assert(cleaned =~= Seq::<u8>::empty());
        crate::bytes::lemma_split_whole(cleaned, 44);
        assert(trim_spec(Seq::<u8>::empty()) == Seq::<u8>::empty());
        assert(extract_nodes_spec(reply) =~= seq![Seq::<u8>::empty()]);
    } else {
        lemma_split_plain(items);
        let fields = split_bytes(cleaned, 44);
        assert forall|i: int| 0 <= i < items.len() implies trim_spec(fields[i]) == items[i] by {
            lemma_trim_spaced_item(items[i]);
        }
        assert(extract_nodes_spec(reply) =~= items);
    }
}

} // verus!
