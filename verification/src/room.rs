//! Rooms: their ids, and the links and addresses that lead to them.
use vstd::prelude::*;
use rand::Rng;
use crate::text::{chars_of, same_text};

verus! {

/// Why `url` could not parse an address.
#[verifier::external_type_specification]
#[verifier::external_body]
pub struct ExParseError(url::ParseError);

/// `String::push` appends one character.
pub assume_specification[ String::push ](s: &mut String, c: char)
    ensures
        final(s)@ == old(s)@.push(c),
;

/// The parts of an address that are looked at here.
#[derive(Debug)]
pub struct UrlParts {
    pub scheme: String,
    pub path: String,
}

/// Why there is no room on a server.
#[derive(Debug)]
pub enum ServerUrlError {
    /// The server's address is no URL.
    Invalid { url: String, cause: url::ParseError },
    /// The server's address is not that of a WebSocket relay.
    Scheme { scheme: String },
}

/// What is needed to share a file.
#[derive(Debug)]
pub struct SharePlan {
    pub room_id: String,
    pub ws_url: String,
    pub share_link: String,
}

/// The lower-case hexadecimal digit for `n`.
pub open spec fn hex_digit(n: int) -> char {
    if n < 10 {
        ('0' as int + n) as char
    } else {
        ('a' as int + n - 10) as char
    }
}

/// Whether `c` is a lower-case hexadecimal digit.
pub open spec fn is_hex_digit(c: char) -> bool {
    '0' <= c <= '9' || 'a' <= c <= 'f'
}

/// Two digits for each byte, the high one first.
pub open spec fn hex_text(bytes: Seq<u8>) -> Seq<char> {
    Seq::new(
        2 * bytes.len(),
        |i: int|
            hex_digit(
                if i % 2 == 0 {
                    bytes[i / 2] as int / 16
                } else {
                    bytes[i / 2] as int % 16
                },
            ),
    )
}

/// A room id has sixteen lower-case hexadecimal digits, and so can stand in a
/// path as it is.
pub proof fn law_room_id_format(bytes: Seq<u8>)
    requires
        bytes.len() == 8,
    ensures
        hex_text(bytes).len() == 16,
        forall|i: int| 0 <= i < 16 ==> is_hex_digit(#[trigger] hex_text(bytes)[i]),
        is_word(hex_text(bytes)),
{
}

/// Different bytes give different room ids.
pub proof fn law_room_ids_differ(bytes1: Seq<u8>, bytes2: Seq<u8>)
    requires
        hex_text(bytes1) == hex_text(bytes2),
    ensures
        bytes1 == bytes2,
{
    assert(hex_text(bytes1).len() == 2 * bytes1.len());
    assert(hex_text(bytes2).len() == 2 * bytes2.len());
    assert forall|i: int| 0 <= i < bytes1.len() implies bytes1[i] == bytes2[i] by {
        lemma_hex_text_at(bytes1, i);
        lemma_hex_text_at(bytes2, i);
        lemma_hex_digits_differ(bytes1[i] as int / 16, bytes2[i] as int / 16);
        lemma_hex_digits_differ(bytes1[i] as int % 16, bytes2[i] as int % 16);
    }
    assert(bytes1 =~= bytes2);
}

/// What a lower-case hexadecimal digit is worth.
pub open spec fn digit_value(c: char) -> int {
    if '0' <= c <= '9' {
        c as int - '0' as int
    } else {
        c as int - 'a' as int + 10
    }
}

/// Each byte is what its two digits are worth, the first of them sixteen times.
pub proof fn law_hex_text_is_worth_the_bytes(bytes: Seq<u8>, i: int)
    requires
        0 <= i < bytes.len(),
    ensures
        hex_text(bytes).len() == 2 * bytes.len(),
        is_hex_digit(hex_text(bytes)[2 * i]),
        is_hex_digit(hex_text(bytes)[2 * i + 1]),
        16 * digit_value(hex_text(bytes)[2 * i]) + digit_value(hex_text(bytes)[2 * i + 1])
            == bytes[i],
{
    lemma_hex_text_at(bytes, i);
    assert forall|n: int| 0 <= n < 16 implies is_hex_digit(#[trigger] hex_digit(n))
        && digit_value(hex_digit(n)) == n by {
        assert(hex_digit(n) as int == if n < 10 {
            48 + n
        } else {
            87 + n
        });
    }
}

/// Where the digits of a byte stand.
proof fn lemma_hex_text_at(bytes: Seq<u8>, i: int)
    requires
        0 <= i < bytes.len(),
    ensures
        hex_text(bytes)[2 * i] == hex_digit(bytes[i] as int / 16),
        hex_text(bytes)[2 * i + 1] == hex_digit(bytes[i] as int % 16),
{
    assert((2 * i) / 2 == i && (2 * i) % 2 == 0);
    assert((2 * i + 1) / 2 == i && (2 * i + 1) % 2 == 1);
}

/// Different numbers have different digits.
proof fn lemma_hex_digits_differ(m: int, n: int)
    requires
        0 <= m < 16,
        0 <= n < 16,
        hex_digit(m) == hex_digit(n),
    ensures
        m == n,
{
    assert(hex_digit(m) as int == if m < 10 {
        48 + m
    } else {
        87 + m
    });
    assert(hex_digit(n) as int == if n < 10 {
        48 + n
    } else {
        87 + n
    });
}

/// The digits of one byte, the high one first.
fn hex_encode_byte(b: u8) -> (digits: [char; 2])
    ensures
        digits@ == seq![hex_digit(b as int / 16), hex_digit(b as int % 16)],
{
    let digits = [hex_char(b / 16), hex_char(b % 16)];
    assert(digits@ =~= seq![hex_digit(b as int / 16), hex_digit(b as int % 16)]);
    digits
}

/// The digit for `n`.
fn hex_char(n: u8) -> (c: char)
    requires
        n < 16,
    ensures
        c == hex_digit(n as int),
{
    if n < 10 {
        (0x30 + n) as char
    } else {
        (0x61 + (n - 10)) as char
    }
}

/// The hexadecimal digits of eight bytes.
pub fn encode(bytes: [u8; 8]) -> (text: String)
    ensures
        text@ == hex_text(bytes@),
{
    let mut s = String::new();
    let mut i: usize = 0;
    while i < 8
        invariant
            i <= 8,
            s@ == hex_text(bytes@.take(i as int)),
        decreases 8 - i,
    {
        let digits = hex_encode_byte(bytes[i]);
        s.push(digits[0]);
        s.push(digits[1]);
        assert(s@ =~= hex_text(bytes@.take(i + 1)));
        i += 1;
    }
    assert(bytes@.take(8) =~= bytes@);
    s
}

/// `rand::Rng::gen` on `rand::thread_rng`: eight bytes, which may be any.
#[verifier::external_body]
fn random_bytes() -> (bytes: [u8; 8]) {
    rand::thread_rng().gen()
}

/// Generates a random room id: eight bytes as sixteen lower-case hexadecimal
/// digits.
pub fn generate_room_id() -> (id: String)
    ensures
        exists|bytes: Seq<u8>| bytes.len() == 8 && id@ == #[trigger] hex_text(bytes),
        id@.len() == 16,
        forall|i: int| 0 <= i < 16 ==> is_hex_digit(#[trigger] id@[i]),
{
    let bytes = random_bytes();
    proof {
        law_room_id_format(bytes@);
    }
    encode(bytes)
}

/// `text` without the slashes at its end.
pub open spec fn without_trailing_slashes(text: Seq<char>) -> Seq<char>
    decreases text.len(),
{
    if text.len() > 0 && text.last() == '/' {
        without_trailing_slashes(text.drop_last())
    } else {
        text
    }
}

/// The address of a room on the relay at `base`.
pub open spec fn room_url(base: Seq<char>, room_id: Seq<char>) -> Seq<char> {
    base + "/r/"@ + room_id
}

/// The command that joins a room.
pub open spec fn share_link(server_url: Seq<char>, room_id: Seq<char>) -> Seq<char> {
    "entangle join "@ + room_url(without_trailing_slashes(server_url), room_id)
}

/// It makes no difference whether a server's address ends in a slash.
pub proof fn law_trailing_slash_ignored(server_url: Seq<char>)
    ensures
        without_trailing_slashes(server_url.push('/')) == without_trailing_slashes(server_url),
{
    assert(server_url.push('/').drop_last() =~= server_url);
}

/// What is left has no slash at its end, and only slashes were taken away.
pub proof fn law_only_trailing_slashes_removed(text: Seq<char>)
    ensures
        without_trailing_slashes(text).len() <= text.len(),
        text.take(without_trailing_slashes(text).len() as int) == without_trailing_slashes(text),
        forall|i: int|
            without_trailing_slashes(text).len() <= i < text.len() ==> #[trigger] text[i] == '/',
        without_trailing_slashes(text).len() > 0 ==> without_trailing_slashes(text).last() != '/',
    decreases text.len(),
{
    if text.len() > 0 && text.last() == '/' {
        law_only_trailing_slashes_removed(text.drop_last());
        let n = without_trailing_slashes(text).len() as int;
        assert(text.drop_last().take(n) =~= text.take(n));
        assert forall|i: int| n <= i < text.len() implies #[trigger] text[i] == '/' by {
            if i < text.len() - 1 {
                assert(text.drop_last()[i] == text[i]);
            }
        }
    } else {
        assert(text.take(text.len() as int) =~= text);
    }
}

/// `n` slashes.
pub open spec fn slashes(n: nat) -> Seq<char> {
    Seq::new(n, |i: int| '/')
}

proof fn lemma_slashes_removed(base: Seq<char>, n: nat)
    requires
        base.len() > 0 ==> base.last() != '/',
    ensures
        without_trailing_slashes(base + slashes(n)) == base,
    decreases n,
{
    let text = base + slashes(n);
    if n > 0 {
        lemma_slashes_removed(base, (n - 1) as nat);
        assert(text.last() == slashes(n).last());
        assert(text.drop_last() =~= base + slashes((n - 1) as nat));
    } else {
        assert(text =~= base);
    }
}

/// However many slashes a server's address ends in, the share link is the join
/// command, the address without them, and the path of the room.
pub proof fn law_share_link_of_a_server(base: Seq<char>, n: nat, room_id: Seq<char>)
    requires
        base.len() > 0 ==> base.last() != '/',
    ensures
        share_link(base + slashes(n), room_id) == "entangle join "@ + base + "/r/"@ + room_id,
{
    lemma_slashes_removed(base, n);
    assert(share_link(base + slashes(n), room_id) =~= "entangle join "@ + base + "/r/"@ + room_id);
}

/// The links to two rooms on a server differ.
pub proof fn law_share_links_differ(server_url: Seq<char>, room1: Seq<char>, room2: Seq<char>)
    requires
        share_link(server_url, room1) == share_link(server_url, room2),
    ensures
        room1 == room2,
{
    let base = without_trailing_slashes(server_url);
    let head = "entangle join "@ + (base + "/r/"@);
    assert(share_link(server_url, room1) =~= head + room1);
    assert(share_link(server_url, room2) =~= head + room2);
    assert((head + room1).skip(head.len() as int) =~= room1);
    assert((head + room2).skip(head.len() as int) =~= room2);
}

/// Takes the slashes at the end of `text` away.
fn trim_trailing_slashes<'a>(text: &'a str) -> (trimmed: &'a str)
    ensures
        trimmed@ == without_trailing_slashes(text@),
{
    let chars = chars_of(text);
    let mut n: usize = chars.len();
    assert(text@.take(n as int) =~= text@);
    while n > 0 && chars[n - 1] == '/'
        invariant
            n <= chars@.len(),
            chars@ == text@,
            without_trailing_slashes(text@.take(n as int)) == without_trailing_slashes(text@),
        decreases n,
    {
        assert(text@.take(n as int).drop_last() =~= text@.take(n - 1));
        n -= 1;
    }
    text.substring_char(0, n)
}

/// Appends a room to the relay's address.
fn append_room(base: &str, room_id: &str) -> (url: String)
    ensures
        url@ == room_url(base@, room_id@),
{
    let mut url = base.to_owned();
    url.append("/r/");
    url.append(room_id);
    url
}

/// Builds the share link shown to the user.
pub fn build_share_link(server_url: &str, room_id: &str) -> (link: String)
    ensures
        link@ == share_link(server_url@, room_id@),
{
    let mut link = "entangle join ".to_owned();
    link.append(append_room(trim_trailing_slashes(server_url), room_id).as_str());
    link
}

/// The scheme and the path that `url` finds in an address, if it is a URL: what
/// [`parse_url`] returns.
pub uninterp spec fn url_parts(address: Seq<char>) -> Option<(Seq<char>, Seq<char>)>;

/// Whether `base` is the address of a WebSocket relay without a path, a query
/// or a fragment.
pub open spec fn is_bare_relay(base: Seq<char>) -> bool {
    ||| base.len() > 5 && base.take(5) == "ws://"@ && is_authority(base.skip(5))
    ||| base.len() > 6 && base.take(6) == "wss://"@ && is_authority(base.skip(6))
}

/// Whether nothing in `text` ends the authority of a URL or is skipped there.
pub open spec fn is_authority(text: Seq<char>) -> bool {
    forall|i: int|
        0 <= i < text.len() ==> {
            let c = #[trigger] text[i];
            c > ' ' && c != '/' && c != '\\' && c != '?' && c != '#'
        }
}

/// Whether `text` has letters, digits, hyphens and underscores of ASCII only.
pub open spec fn is_word(text: Seq<char>) -> bool {
    forall|i: int| 0 <= i < text.len() ==> is_word_char(#[trigger] text[i])
}

/// Whether `text` has words and slashes only.
pub open spec fn is_word_path(text: Seq<char>) -> bool {
    forall|i: int|
        0 <= i < text.len() ==> is_word_char(#[trigger] text[i]) || text[i] == '/'
}

pub open spec fn is_word_char(c: char) -> bool {
    'a' <= c <= 'z' || 'A' <= c <= 'Z' || '0' <= c <= '9' || c == '-' || c == '_'
}

/// Whether `result` is right for `address` if the latter is the bare address of
/// a relay that is a URL, a slash and a path of plain words: a URL with this
/// slash and path.
pub open spec fn plain_path_kept(
    address: Seq<char>,
    result: Result<UrlParts, url::ParseError>,
) -> bool {
    forall|base: Seq<char>, rest: Seq<char>|
        is_bare_relay(base) && url_parts(base) is Some && is_word_path(rest) && address
            == #[trigger] with_path(base, rest) ==> (result matches Ok(parts) && parts.path@
            == "/"@ + rest)
}

/// `base`, a slash and `rest`.
pub open spec fn with_path(base: Seq<char>, rest: Seq<char>) -> Seq<char> {
    base + "/"@ + rest
}

/// `url::Url::parse`, then `url::Url::scheme` and `url::Url::path`.
///
/// Claimed of them: the parts depend on the address alone; and where a relay's
/// bare address is a URL, so is that address with a slash and a path of plain
/// words behind it, and what `path` gives back is this slash and path. What
/// other addresses are URLs, and what their parts are, is not stated.
#[verifier::external_body]
fn parse_url(address: &str) -> (result: Result<UrlParts, url::ParseError>)
    ensures
        match result {
            Ok(parts) => url_parts(address@) == Some((parts.scheme@, parts.path@)),
            Err(_) => url_parts(address@) is None,
        },
        plain_path_kept(address@, result),
{
    url::Url::parse(address).map(
        |url| UrlParts { scheme: url.scheme().to_string(), path: url.path().to_string() },
    )
}

/// The room that a path of the form `/r/<room id>` names.
pub open spec fn room_of_path(path: Seq<char>) -> Option<Seq<char>> {
    if path.len() > 3 && path.take(3) == "/r/"@ {
        Some(path.skip(3))
    } else {
        None
    }
}

/// Any text behind `/r/` is a room, whatever its characters are; and only there is
/// one.
pub proof fn law_room_is_what_follows_the_path(path: Seq<char>, id: Seq<char>)
    ensures
        room_of_path(path) == Some(id) <==> path == "/r/"@ + id && id.len() > 0,
        room_of_path("/r/"@ + id) == (if id.len() > 0 {
            Some(id)
        } else {
            None
        }),
{
    reveal_strlit("/r/");
    let full = "/r/"@ + id;
    assert(full.take(3) =~= "/r/"@);
    assert(full.skip(3) =~= id);
    if room_of_path(path) == Some(id) {
        assert(path =~= path.take(3) + path.skip(3));
    }
}

/// The room that a path names.
pub fn room_in_path(path: &str) -> (room: Option<String>)
    ensures
        match room {
            Some(id) => room_of_path(path@) == Some(id@),
            None => room_of_path(path@) is None,
        },
{
    let len: usize = path.unicode_len();
    if len > 3 && same_text(path.substring_char(0, 3), "/r/") {
        assert(path@.subrange(3, len as int) =~= path@.skip(3));
        Some(path.substring_char(3, len).to_owned())
    } else {
        None
    }
}

/// Parses the room id from an address like
/// `wss://relay.example.com/r/<room id>`.
///
/// The address of a room with a plain id, on a relay without a path of its own,
/// gives that id back.
pub fn parse_room_id(url: &str) -> (room: Option<String>)
    ensures
        room is Some <==> (url_parts(url@) matches Some(parts) && room_of_path(parts.1) is Some),
        room matches Some(id) ==> room_of_path((url_parts(url@)->0).1) == Some(id@),
        forall|base: Seq<char>, id: Seq<char>|
            is_bare_relay(base) && url_parts(base) is Some && is_word(id) && id.len() > 0 && url@
                == #[trigger] room_url(base, id) ==> (room matches Some(found) && found@ == id),
{
    match parse_url(url) {
        Ok(parts) => {
            proof {
                assert forall|base: Seq<char>, id: Seq<char>|
                    is_bare_relay(base) && url_parts(base) is Some && is_word(id) && id.len() > 0
                        && url@ == #[trigger] room_url(base, id) implies room_of_path(
                    parts.path@,
                ) == Some(id) by {
                    lemma_room_path(base, id);
                    assert(url@ == with_path(base, "r/"@ + id));
                }
            }
            room_in_path(parts.path.as_str())
        },
        Err(_) => {
            proof {
                assert forall|base: Seq<char>, id: Seq<char>|
                    is_bare_relay(base) && url_parts(base) is Some && is_word(id) && id.len() > 0
                        && url@ == #[trigger] room_url(base, id) implies false by {
                    lemma_room_path(base, id);
                    assert(url@ == with_path(base, "r/"@ + id));
                }
            }
            None
        },
    }
}

/// The path in a room's address is made of plain words if the room's id is one.
proof fn lemma_room_path(base: Seq<char>, id: Seq<char>)
    requires
        is_word(id),
        id.len() > 0,
    ensures
        room_url(base, id) == with_path(base, "r/"@ + id),
        is_word_path("r/"@ + id),
        room_of_path("/"@ + ("r/"@ + id)) == Some(id),
{
    reveal_strlit("/r/");
    reveal_strlit("/");
    reveal_strlit("r/");
    assert("/r/"@ =~= "/"@ + "r/"@);
    assert(room_url(base, id) =~= with_path(base, "r/"@ + id));
    let path = "/"@ + ("r/"@ + id);
    assert(path.take(3) =~= "/r/"@);
    assert(path.skip(3) =~= id);
}

/// Whether a scheme is one for WebSockets.
pub open spec fn is_ws_scheme(scheme: Seq<char>) -> bool {
    scheme == "ws"@ || scheme == "wss"@
}

/// The address of a room on the relay at `base`, whose scheme is `scheme`.
pub fn ws_url_for(base: &str, scheme: &str, room_id: &str) -> (result: Result<
    String,
    ServerUrlError,
>)
    ensures
        match result {
            Ok(url) => is_ws_scheme(scheme@) && url@ == room_url(base@, room_id@),
            Err(ServerUrlError::Scheme { scheme: other }) => !is_ws_scheme(scheme@) && other@
                == scheme@,
            Err(ServerUrlError::Invalid { .. }) => false,
        },
{
    if same_text(scheme, "ws") || same_text(scheme, "wss") {
        Ok(append_room(base, room_id))
    } else {
        Err(ServerUrlError::Scheme { scheme: scheme.to_owned() })
    }
}

/// Whether `url` is the address of a room on `server`, which is a relay.
pub open spec fn is_ws_url(url: Seq<char>, server: Seq<char>, room_id: Seq<char>) -> bool {
    let base = without_trailing_slashes(server);
    &&& url_parts(base) matches Some(parts)
    &&& is_ws_scheme(parts.0)
    &&& url == room_url(base, room_id)
}

/// Whether `error` says why `server` is no relay.
pub open spec fn is_server_error(error: ServerUrlError, server: Seq<char>) -> bool {
    let base = without_trailing_slashes(server);
    match error {
        ServerUrlError::Scheme { scheme } => {
            &&& url_parts(base) matches Some(parts)
            &&& !is_ws_scheme(parts.0)
            &&& scheme@ == parts.0
        },
        ServerUrlError::Invalid { url, .. } => url_parts(base) is None && url@ == base,
    }
}

/// However many slashes a relay's address ends in, the address of a room on it is the
/// relay's without them and the path of the room, if `url` finds one of the two
/// schemes for WebSockets in it; and it is what the share link tells to join. There
/// is no other reason for there being none than those.
pub proof fn law_address_of_a_room(base: Seq<char>, n: nat, room_id: Seq<char>, url: Seq<char>)
    requires
        base.len() > 0 ==> base.last() != '/',
    ensures
        is_ws_url(url, base + slashes(n), room_id) <==> {
            &&& url_parts(base) matches Some(parts)
            &&& parts.0 == "ws"@ || parts.0 == "wss"@
            &&& url == base + "/r/"@ + room_id
        },
        is_ws_url(url, base + slashes(n), room_id) ==> share_link(base + slashes(n), room_id)
            == "entangle join "@ + url,
        forall|e: ServerUrlError| #[trigger]
            is_server_error(e, base + slashes(n)) ==> !is_ws_url(url, base + slashes(n), room_id)
                && match e {
                ServerUrlError::Scheme { scheme } => url_parts(base) is Some && (url_parts(
                    base,
                )->0).0 == scheme@ && scheme@ != "ws"@ && scheme@ != "wss"@,
                ServerUrlError::Invalid { url, .. } => url_parts(base) is None && url@ == base,
            },
{
    lemma_slashes_removed(base, n);
}

/// Builds the address of a room on a relay. The relay's own address must be a
/// URL with the scheme `ws` or `wss`.
pub fn build_ws_url(server: &str, room_id: &str) -> (result: Result<String, ServerUrlError>)
    ensures
        match result {
            Ok(url) => is_ws_url(url@, server@, room_id@),
            Err(e) => is_server_error(e, server@),
        },
{
    let base = trim_trailing_slashes(server);
    match parse_url(base) {
        Ok(parts) => ws_url_for(base, parts.scheme.as_str(), room_id),
        Err(cause) => Err(ServerUrlError::Invalid { url: base.to_owned(), cause }),
    }
}

impl ServerUrlError {
    /// What to tell the user.
    pub fn message(&self) -> (text: String)
        ensures
            text@ == (match self {
                ServerUrlError::Invalid { url, .. } => "invalid server URL: "@ + url@,
                ServerUrlError::Scheme { scheme } =>
                    "server URL must use ws:// or wss:// scheme, got: "@ + scheme@,
            }),
    {
        match self {
            ServerUrlError::Invalid { url, .. } => {
                let mut text = "invalid server URL: ".to_owned();
                text.append(url.as_str());
                text
            },
            ServerUrlError::Scheme { scheme } => {
                let mut text = "server URL must use ws:// or wss:// scheme, got: ".to_owned();
                text.append(scheme.as_str());
                text
            },
        }
    }
}

/// Plans the sharing of a file in the room `room_id`.
pub fn plan_share_in(server: &str, room_id: String) -> (result: Result<SharePlan, ServerUrlError>)
    ensures
        match result {
            Ok(plan) => {
                &&& plan.room_id@ == room_id@
                &&& is_ws_url(plan.ws_url@, server@, room_id@)
                &&& plan.share_link@ == share_link(server@, room_id@)
                &&& plan.share_link@ == "entangle join "@ + plan.ws_url@
            },
            Err(e) => is_server_error(e, server@),
        },
{
    let ws_url = match build_ws_url(server, room_id.as_str()) {
        Ok(ws_url) => ws_url,
        Err(e) => {
            return Err(e);
        },
    };
    let link = build_share_link(server, room_id.as_str());
    Ok(SharePlan { room_id, ws_url, share_link: link })
}

/// Plans the sharing of a file, in a room of the user's choice or in a new one.
pub fn plan_share(server: &str, room: Option<String>) -> (result: Result<
    SharePlan,
    ServerUrlError,
>)
    ensures
        match result {
            Ok(plan) => {
                &&& match room {
                    Some(id) => plan.room_id@ == id@,
                    None => exists|bytes: Seq<u8>| bytes.len() == 8 && plan.room_id@
                        == #[trigger] hex_text(bytes),
                }
                &&& is_ws_url(plan.ws_url@, server@, plan.room_id@)
                &&& plan.share_link@ == share_link(server@, plan.room_id@)
                &&& plan.share_link@ == "entangle join "@ + plan.ws_url@
            },
            Err(e) => is_server_error(e, server@),
        },
{
    let room_id = match room {
        Some(id) => id,
        None => generate_room_id(),
    };
    plan_share_in(server, room_id)
}

/// The file that a joining peer writes if it names none: that of the room that
/// the address names. `None` if it names no room.
pub fn default_output(url: &str) -> (name: Option<String>)
    ensures
        name is Some <==> (url_parts(url@) matches Some(parts) && room_of_path(parts.1) is Some),
        name matches Some(file) ==> file@ == room_of_path((url_parts(url@)->0).1)->0 + ".txt"@,
{
    match parse_room_id(url) {
        Some(room) => Some(output_for_room(room.as_str())),
        None => None,
    }
}

/// The file for a room.
pub fn output_for_room(room_id: &str) -> (name: String)
    ensures
        name@ == room_id@ + ".txt"@,
{
    let mut name = room_id.to_owned();
    name.append(".txt");
    name
}

} // verus!
