//! Kokoro neural TTS: the voice catalog and the daemon's query encoding.
//!
//! Running the helper daemon and the socket it listens on are the app's work; reading
//! its HTTP replies is here.

use vstd::prelude::*;
use crate::text::{
    chars_of, contains, contains_chars, find_chars, first_index, lemma_first_index, push_all, starts_with,
    starts_with_chars, string_of, sub_chars, trim, trim_chars,
};

verus! {

/// A voice the Kokoro daemon offers.
#[derive(Debug, Clone)]
pub struct KokoroVoice {
    pub id: String,
    pub label: String,
    pub gender: String,
    pub locale: String,
}

pub struct VoiceView {
    pub id: Seq<char>,
    pub label: Seq<char>,
    pub gender: Seq<char>,
    pub locale: Seq<char>,
}

impl View for KokoroVoice {
    type V = VoiceView;

    open spec fn view(&self) -> VoiceView {
        VoiceView { id: self.id@, label: self.label@, gender: self.gender@, locale: self.locale@ }
    }
}

pub open spec fn voice_views(v: Seq<KokoroVoice>) -> Seq<VoiceView> {
    v.map_values(|x: KokoroVoice| x@)
}

pub open spec fn voice_view(id: Seq<char>, label: Seq<char>, gender: Seq<char>, locale: Seq<char>) -> VoiceView {
    VoiceView { id, label, gender, locale }
}

fn voice(id: &str, label: &str, gender: &str, locale: &str) -> (r: KokoroVoice)
    ensures
        r@ == voice_view(id@, label@, gender@, locale@),
{
    KokoroVoice {
        id: String::from_str(id),
        label: String::from_str(label),
        gender: String::from_str(gender),
        locale: String::from_str(locale),
    }
}

/// The built-in voice catalog.
pub open spec fn fallback_voices() -> Seq<VoiceView> {
    seq![
        voice_view("af_heart"@, "Heart"@, "female"@, "en-US"@),
        voice_view("af_bella"@, "Bella"@, "female"@, "en-US"@),
        voice_view("af_nicole"@, "Nicole"@, "female"@, "en-US"@),
        voice_view("af_sarah"@, "Sarah"@, "female"@, "en-US"@),
        voice_view("af_kore"@, "Kore"@, "female"@, "en-US"@),
        voice_view("af_aoede"@, "Aoede"@, "female"@, "en-US"@),
        voice_view("af_nova"@, "Nova"@, "female"@, "en-US"@),
        voice_view("bf_emma"@, "Emma (UK)"@, "female"@, "en-GB"@),
        voice_view("bf_isabella"@, "Isabella (UK)"@, "female"@, "en-GB"@),
        voice_view("am_michael"@, "Michael"@, "male"@, "en-US"@),
        voice_view("am_fenrir"@, "Fenrir"@, "male"@, "en-US"@),
        voice_view("am_puck"@, "Puck"@, "male"@, "en-US"@),
        voice_view("am_echo"@, "Echo"@, "male"@, "en-US"@),
        voice_view("am_liam"@, "Liam"@, "male"@, "en-US"@),
        voice_view("bm_george"@, "George (UK)"@, "male"@, "en-GB"@),
        voice_view("bm_fable"@, "Fable (UK)"@, "male"@, "en-GB"@),
    ]
}

/// Built-in catalog when the daemon is not running yet (UI still works).
pub fn fallback_voice_catalog() -> (r: Vec<KokoroVoice>)
    ensures
        voice_views(r@) == fallback_voices(),
{
    let r = vec![
        voice("af_heart", "Heart", "female", "en-US"),
        voice("af_bella", "Bella", "female", "en-US"),
        voice("af_nicole", "Nicole", "female", "en-US"),
        voice("af_sarah", "Sarah", "female", "en-US"),
        voice("af_kore", "Kore", "female", "en-US"),
        voice("af_aoede", "Aoede", "female", "en-US"),
        voice("af_nova", "Nova", "female", "en-US"),
        voice("bf_emma", "Emma (UK)", "female", "en-GB"),
        voice("bf_isabella", "Isabella (UK)", "female", "en-GB"),
        voice("am_michael", "Michael", "male", "en-US"),
        voice("am_fenrir", "Fenrir", "male", "en-US"),
        voice("am_puck", "Puck", "male", "en-US"),
        voice("am_echo", "Echo", "male", "en-US"),
        voice("am_liam", "Liam", "male", "en-US"),
        voice("bm_george", "George (UK)", "male", "en-GB"),
        voice("bm_fable", "Fable (UK)", "male", "en-GB"),
    ];
    assert(voice_views(r@) =~= fallback_voices());
    r
}

/// A `/voices` reply from a healthy daemon: a JSON list or an object with an id.
pub open spec fn voices_reply_ok(body: Seq<char>) -> bool {
    let t = trim(body);
    starts_with(t, seq!['[']) || contains(t, "\"id\""@)
}

/// Whether a `/voices` reply body shows a healthy daemon.
pub fn voices_body_ok(body: &str) -> (r: bool)
    ensures
        r == voices_reply_ok(body@),
{
    let t = trim_chars(chars_of(body).as_slice());
    let open = chars_of("[");
    proof {
        reveal_strlit("[");
    }
    assert(open@ =~= seq!['[']);
    crate::text::starts_with_chars(t.as_slice(), open.as_slice()) || contains_chars(
        t.as_slice(),
        chars_of("\"id\"").as_slice(),
    )
}

/// The first line of a reply header (a `\r` before its `\n` dropped), `?` for none.
pub open spec fn status_line(header: Seq<char>) -> Seq<char> {
    if header.len() == 0 {
        "?"@
    } else {
        match first_index(header, seq!['\n']) {
            None => header,
            Some(j) => if j > 0 && header[j - 1] == '\r' {
                header.take(j - 1)
            } else {
                header.take(j)
            },
        }
    }
}

/// The body of a daemon reply: `Err` without a blank line after the header, for a
/// status other than `200`, or for an empty body; else the trimmed body.
pub open spec fn reply_body(raw: Seq<char>) -> Result<Seq<char>, Seq<char>> {
    match first_index(raw, "\r\n\r\n"@) {
        None => Err("kokoro http bad reply"@),
        Some(i) => {
            let header = raw.take(i);
            let body = trim(raw.skip(i + 4));
            if !(starts_with(header, "HTTP/1.1 200"@) || starts_with(header, "HTTP/1.0 200"@)) {
                Err("kokoro http failed: "@ + status_line(header))
            } else if body.len() == 0 {
                Err("kokoro http empty reply"@)
            } else {
                Ok(body)
            }
        },
    }
}

fn status_line_exec(header: &[char]) -> (r: Vec<char>)
    ensures
        r@ == status_line(header@),
{
    if header.len() == 0 {
        return chars_of("?");
    }
    let nl = chars_of("\n");
    proof {
        reveal_strlit("\n");
    }
    assert(nl@ =~= seq!['\n']);
    match find_chars(header, nl.as_slice()) {
        None => sub_chars(header, 0, header.len()),
        Some(j) => {
            proof {
                lemma_first_index(header@, nl@);
            }
            if j > 0 && header[j - 1] == '\r' {
                sub_chars(header, 0, j - 1)
            } else {
                sub_chars(header, 0, j)
            }
        },
    }
}

/// Reads a raw HTTP reply from the daemon: the trimmed body of a `200` reply, or why
/// there is none.
pub fn http_reply_body(raw: &str) -> (r: Result<String, String>)
    ensures
        match r {
            Ok(b) => reply_body(raw@) == Ok::<Seq<char>, Seq<char>>(b@),
            Err(e) => reply_body(raw@) == Err::<Seq<char>, Seq<char>>(e@),
        },
{
    let v = chars_of(raw);
    let sep = chars_of("\r\n\r\n");
    proof {
        reveal_strlit("\r\n\r\n");
    }
    let i = match find_chars(v.as_slice(), sep.as_slice()) {
        None => {
            return Err(String::from_str("kokoro http bad reply"));
        },
        Some(i) => i,
    };
    proof {
        lemma_first_index(v@, sep@);
    }
    let header = sub_chars(v.as_slice(), 0, i);
    assert(header@ == v@.take(i as int));
    let rest = sub_chars(v.as_slice(), i + 4, v.len());
    assert(rest@ == v@.skip(i + 4));
    let body = trim_chars(rest.as_slice());
    if !(starts_with_chars(header.as_slice(), chars_of("HTTP/1.1 200").as_slice()) || starts_with_chars(
        header.as_slice(),
        chars_of("HTTP/1.0 200").as_slice(),
    )) {
        let mut m = chars_of("kokoro http failed: ");
        push_all(&mut m, status_line_exec(header.as_slice()).as_slice());
        return Err(string_of(m.as_slice()));
    }
    if body.len() == 0 {
        return Err(String::from_str("kokoro http empty reply"));
    }
    Ok(string_of(body.as_slice()))
}

/// The value of an ASCII hex digit (either case).
pub open spec fn hex_val(b: u8) -> Option<u8> {
    if 48 <= b <= 57 {
        Some((b - 48) as u8)
    } else if 65 <= b <= 70 {
        Some((b - 55) as u8)
    } else if 97 <= b <= 102 {
        Some((b - 87) as u8)
    } else {
        None
    }
}

/// The byte two characters after a `%` stand for, read as `u8::from_str_radix(_, 16)`
/// reads them (a leading `+` sign is allowed before one digit).
pub open spec fn pair_val(b1: u8, b2: u8) -> Option<u8> {
    if b1 == 43 {
        hex_val(b2)
    } else {
        match (hex_val(b1), hex_val(b2)) {
            (Some(h), Some(l)) => Some((16 * h + l) as u8),
            _ => None,
        }
    }
}

/// Form-decoding of bytes: `+` is a space, `%` and two hex characters a byte, and any
/// other byte (a `%` without a valid pair too) itself.
pub open spec fn url_decode(b: Seq<u8>) -> Seq<u8>
    decreases b.len(),
{
    if b.len() == 0 {
        Seq::empty()
    } else if b[0] == 43 {
        seq![32u8] + url_decode(b.drop_first())
    } else if b[0] == 37 && 2 < b.len() && pair_val(b[1], b[2]) is Some {
        seq![pair_val(b[1], b[2])->0] + url_decode(b.skip(3))
    } else {
        seq![b[0]] + url_decode(b.drop_first())
    }
}

/// Text whose every `%` that has two bytes after it is followed by whole characters
/// there, so the two bytes can be read as text.
pub open spec fn escapes_whole(b: Seq<u8>) -> bool {
    forall|i: int|
        0 <= i && i + 3 < b.len() && #[trigger] b[i] == 37 ==> !vstd::utf8::is_continuation_byte(b[i + 3])
}

/// The text a query value stands for, when its decoded bytes are UTF-8.
pub open spec fn url_text(s: Seq<char>) -> Seq<u8> {
    url_decode(vstd::utf8::encode_utf8(s))
}

fn hex_val_exec(b: u8) -> (r: Option<u8>)
    ensures
        r == hex_val(b),
{
    if 48 <= b && b <= 57 {
        Some(b - 48)
    } else if 65 <= b && b <= 70 {
        Some(b - 55)
    } else if 97 <= b && b <= 102 {
        Some(b - 87)
    } else {
        None
    }
}

fn pair_val_exec(b1: u8, b2: u8) -> (r: Option<u8>)
    ensures
        r == pair_val(b1, b2),
{
    if b1 == 43 {
        return hex_val_exec(b2);
    }
    match (hex_val_exec(b1), hex_val_exec(b2)) {
        (Some(h), Some(l)) => Some(16 * h + l),
        _ => None,
    }
}

/// The built-in catalog: sixteen voices with distinct ids, among them the two default
/// voices; each is `male` exactly when its id starts with `am_` or `bm_`, else `female`.
pub proof fn law_fallback_catalog()
    ensures
        fallback_voices().len() == 16,
        forall|i: int, j: int|
            0 <= i < j < 16 ==> (#[trigger] fallback_voices()[i]).id != (#[trigger] fallback_voices()[j]).id,
        exists|i: int| 0 <= i < 16 && (#[trigger] fallback_voices()[i]).id == "bf_isabella"@,
        exists|i: int| 0 <= i < 16 && (#[trigger] fallback_voices()[i]).id == "am_michael"@,
        forall|i: int|
            0 <= i < 16 ==> {
                let v = #[trigger] fallback_voices()[i];
                &&& (v.gender == "male"@) == (starts_with(v.id, "am_"@) || starts_with(v.id, "bm_"@))
                &&& (v.gender == "male"@ || v.gender == "female"@)
            },
{
    reveal_strlit("af_heart");
    reveal_strlit("af_bella");
    reveal_strlit("af_nicole");
    reveal_strlit("af_sarah");
    reveal_strlit("af_kore");
    reveal_strlit("af_aoede");
    reveal_strlit("af_nova");
    reveal_strlit("bf_emma");
    reveal_strlit("bf_isabella");
    reveal_strlit("am_michael");
    reveal_strlit("am_fenrir");
    reveal_strlit("am_puck");
    reveal_strlit("am_echo");
    reveal_strlit("am_liam");
    reveal_strlit("bm_george");
    reveal_strlit("bm_fable");
    reveal_strlit("am_");
    reveal_strlit("bm_");
    reveal_strlit("male");
    reveal_strlit("female");
    let f = fallback_voices();
    assert("male"@.len() == 4 && "female"@.len() == 6);
    assert(f[8].id == "bf_isabella"@ && f[9].id == "am_michael"@);
    assert forall|i: int| 0 <= i < 16 implies {
        let v = #[trigger] fallback_voices()[i];
        &&& (v.gender == "male"@) == (starts_with(v.id, "am_"@) || starts_with(v.id, "bm_"@))
        &&& (v.gender == "male"@ || v.gender == "female"@)
    } by {
        let v = f[i];
        assert(v.id.len() >= 7);
        assert(v.id.take(3) =~= seq![v.id[0], v.id[1], v.id[2]]);
        assert("am_"@ =~= seq!['a', 'm', '_'] && "bm_"@ =~= seq!['b', 'm', '_']);
    }
    assert forall|i: int, j: int| 0 <= i < j < 16 implies (#[trigger] fallback_voices()[i]).id != (
        #[trigger] fallback_voices()[j]).id by {
        let a = f[i].id;
        let b = f[j].id;
        if a.len() == b.len() && a[0] == b[0] && a[1] == b[1] && a[3] == b[3] {
            assert(a[4] != b[4]);
        }
    }
}


/// The text `String::from_utf8_lossy` makes of bytes (invalid sequences become
/// replacement characters).
pub uninterp spec fn lossy_text(bytes: Seq<u8>) -> Seq<char>;

/// `String::from_utf8_lossy` (owned): the named `lossy_text` of the bytes; bytes that
/// are valid UTF-8 come back as the text they encode.
#[verifier::external_body]
fn utf8_lossy(bytes: &[u8]) -> (r: String)
    ensures
        r@ == lossy_text(bytes@),
        vstd::utf8::valid_utf8(bytes@) ==> r@ == vstd::utf8::decode_utf8(bytes@),
{
    String::from_utf8_lossy(bytes).into_owned()
}

/// Decodes a form-encoded query value (`+` is a space, `%XX` a byte).
pub fn urlencoding_decode(s: &str) -> (r: String)
    requires
        escapes_whole(vstd::utf8::encode_utf8(s@)),
    ensures
        r@ == lossy_text(url_text(s@)),
        vstd::utf8::valid_utf8(url_text(s@)) ==> r@ == vstd::utf8::decode_utf8(url_text(s@)),
{
    let bytes = s.as_bytes();
    let ghost b = bytes@;
    let mut out: Vec<u8> = Vec::new();
    let mut i: usize = 0;
    assert(b.skip(0) =~= b);
    assert(out@ + url_decode(b.skip(0)) =~= url_decode(b));
    while i < bytes.len()
        invariant
            i <= bytes.len(),
            b == bytes@,
            b == vstd::utf8::encode_utf8(s@),
            out@ + url_decode(b.skip(i as int)) == url_decode(b),
        decreases bytes.len() - i,
    {
        let ghost rest = b.skip(i as int);
        let c = bytes[i];
        if c == 43 {
            assert(rest.drop_first() =~= b.skip(i + 1));
            out.push(32);
            assert(out@ + url_decode(b.skip(i + 1)) =~= url_decode(b));
            i += 1;
        } else if c == 37 && bytes.len() - i > 2 {
            match pair_val_exec(bytes[i + 1], bytes[i + 2]) {
                Some(v) => {
                    assert(rest.skip(3) =~= b.skip(i + 3));
                    out.push(v);
                    assert(out@ + url_decode(b.skip(i + 3)) =~= url_decode(b));
                    i += 3;
                },
                None => {
                    assert(rest.drop_first() =~= b.skip(i + 1));
                    out.push(c);
                    assert(out@ + url_decode(b.skip(i + 1)) =~= url_decode(b));
                    i += 1;
                },
            }
        } else {
            assert(rest.drop_first() =~= b.skip(i + 1));
            out.push(c);
            assert(out@ + url_decode(b.skip(i + 1)) =~= url_decode(b));
            i += 1;
        }
    }
    assert(b.skip(i as int) =~= Seq::<u8>::empty());
    assert(out@ =~= url_decode(b));
    utf8_lossy(out.as_slice())
}

proof fn lemma_url_encode_concat(a: Seq<u8>, b: Seq<u8>)
    ensures
        url_encode(a + b) == url_encode(a) + url_encode(b),
    decreases b.len(),
{
    if b.len() == 0 {
        assert(a + b =~= a);
        assert(url_encode(a) + url_encode(b) =~= url_encode(a));
    } else {
        assert((a + b).drop_last() =~= a + b.drop_last());
        assert((a + b).last() == b.last());
        lemma_url_encode_concat(a, b.drop_last());
        assert(url_encode(a + b) =~= url_encode(a) + (url_encode(b.drop_last()) + encode_byte(b.last())));
    }
}

proof fn lemma_url_encode_first(b: Seq<u8>)
    requires
        b.len() > 0,
    ensures
        url_encode(b) == encode_byte(b[0]) + url_encode(b.drop_first()),
{
    let head = seq![b[0]];
    assert(b =~= head + b.drop_first());
    lemma_url_encode_concat(head, b.drop_first());
    assert(head.drop_last() =~= Seq::<u8>::empty());
    assert(url_encode(head.drop_last()) =~= Seq::<char>::empty());
    assert(head.last() == b[0]);
    assert(url_encode(head) =~= encode_byte(b[0]));
}

/// The bytes of an all-ASCII text.
spec fn ascii_bytes(c: Seq<char>) -> Seq<u8> {
    c.map_values(|ch: char| ch as u8)
}

proof fn lemma_encode_byte_ascii(x: u8)
    ensures
        vstd::utf8::is_ascii_chars(encode_byte(x)),
        encode_byte(x).len() >= 1,
{
}

proof fn lemma_url_encode_ascii(b: Seq<u8>)
    ensures
        vstd::utf8::is_ascii_chars(url_encode(b)),
        vstd::utf8::encode_utf8(url_encode(b)) == ascii_bytes(url_encode(b)),
    decreases b.len(),
{
    if b.len() > 0 {
        lemma_url_encode_ascii(b.drop_last());
        lemma_encode_byte_ascii(b.last());
        let c = url_encode(b);
        assert(c == url_encode(b.drop_last()) + encode_byte(b.last()));
        assert forall|i: int| 0 <= i < c.len() implies '\0' <= #[trigger] c[i] <= '\u{7f}' by {
            if i < url_encode(b.drop_last()).len() {
                assert(c[i] == url_encode(b.drop_last())[i]);
            } else {
                assert(c[i] == encode_byte(b.last())[i - url_encode(b.drop_last()).len()]);
            }
        }
    }
    vstd::utf8::is_ascii_chars_encode_utf8(url_encode(b));
    assert(vstd::utf8::encode_utf8(url_encode(b)) =~= ascii_bytes(url_encode(b)));
}

proof fn lemma_hex_roundtrip(n: u8)
    requires
        n < 16,
    ensures
        hex_val(hex_upper(n) as u8) == Some(n),
        hex_upper(n) as u8 != 43,
{
}

proof fn lemma_decode_encoded(b: Seq<u8>)
    ensures
        url_decode(ascii_bytes(url_encode(b))) == b,
    decreases b.len(),
{
    if b.len() == 0 {
        assert(ascii_bytes(url_encode(b)) =~= Seq::<u8>::empty());
        assert(url_decode(Seq::<u8>::empty()) =~= b);
    } else {
        let x = b[0];
        let rest = b.drop_first();
        lemma_url_encode_first(b);
        lemma_decode_encoded(rest);
        let head = ascii_bytes(encode_byte(x));
        let tail = ascii_bytes(url_encode(rest));
        let all = ascii_bytes(url_encode(b));
        assert(all =~= head + tail);
        if unreserved(x) {
            assert(head =~= seq![x]);
            assert(all.drop_first() =~= tail);
            assert(url_decode(all) =~= seq![x] + rest);
        } else if x == 32 {
            assert(head =~= seq![43u8]);
            assert(all.drop_first() =~= tail);
            assert(url_decode(all) =~= seq![32u8] + rest);
        } else {
            lemma_hex_roundtrip(x / 16);
            lemma_hex_roundtrip(x % 16);
            assert(head =~= seq![37u8, hex_upper(x / 16) as u8, hex_upper(x % 16) as u8]);
            assert(all.skip(3) =~= tail);
            assert(pair_val(all[1], all[2]) == Some(x));
            assert(url_decode(all) =~= seq![x] + rest);
        }
        assert(seq![x] + rest =~= b);
    }
}

/// Decoding what `urlencoding_encode` made gives back the text it encoded: the encoded
/// text meets the decoder's requirement, its decoded bytes are UTF-8, and they are the
/// text's own bytes.
pub proof fn law_url_roundtrip(s: Seq<char>)
    ensures
        escapes_whole(vstd::utf8::encode_utf8(url_encode(vstd::utf8::encode_utf8(s)))),
        vstd::utf8::valid_utf8(url_text(url_encode(vstd::utf8::encode_utf8(s)))),
        vstd::utf8::decode_utf8(url_text(url_encode(vstd::utf8::encode_utf8(s)))) == s,
{
    let b = vstd::utf8::encode_utf8(s);
    lemma_url_encode_ascii(b);
    lemma_decode_encoded(b);
    let e = vstd::utf8::encode_utf8(url_encode(b));
    assert forall|i: int| 0 <= i && i + 3 < e.len() && #[trigger] e[i] == 37 implies !vstd::utf8::is_continuation_byte(
        e[i + 3],
    ) by {
        assert(e[i + 3] == url_encode(b)[i + 3] as u8);
    }
    vstd::utf8::encode_utf8_valid_utf8(s);
    vstd::utf8::encode_utf8_decode_utf8(s);
}

/// Bytes kept as they are in a query: ASCII letters, digits and `-_.~`.
pub open spec fn unreserved(b: u8) -> bool {
    (65 <= b <= 90) || (97 <= b <= 122) || (48 <= b <= 57) || b == 45 || b == 95 || b == 46 || b == 126
}

/// An uppercase hex digit.
pub open spec fn hex_upper(n: u8) -> char
    recommends
        n < 16,
{
    if n < 10 {
        ((n + 48) as u32) as char
    } else {
        ((n + 55) as u32) as char
    }
}

/// One byte of a query value: kept, `+` for a space, else `%XX`.
pub open spec fn encode_byte(b: u8) -> Seq<char> {
    if unreserved(b) {
        seq![(b as u32) as char]
    } else if b == 32 {
        seq!['+']
    } else {
        seq!['%', hex_upper(b / 16), hex_upper(b % 16)]
    }
}

/// The form-encoding of a byte string.
pub open spec fn url_encode(bytes: Seq<u8>) -> Seq<char>
    decreases bytes.len(),
{
    if bytes.len() == 0 {
        Seq::empty()
    } else {
        url_encode(bytes.drop_last()) + encode_byte(bytes.last())
    }
}

fn hex_upper_exec(n: u8) -> (r: char)
    requires
        n < 16,
    ensures
        r == hex_upper(n),
{
    if n < 10 {
        ((n + 48) as u32) as u8 as char
    } else {
        ((n + 55) as u32) as u8 as char
    }
}

/// Form-encodes text for a query string, byte by byte of its UTF-8.
pub fn urlencoding_encode(s: &str) -> (r: String)
    ensures
        r@ == url_encode(vstd::utf8::encode_utf8(s@)),
{
    let bytes = s.as_bytes();
    let mut out: Vec<char> = Vec::new();
    let mut i: usize = 0;
    while i < bytes.len()
        invariant
            i <= bytes.len(),
            bytes@ == vstd::utf8::encode_utf8(s@),
            out@ == url_encode(bytes@.take(i as int)),
        decreases bytes.len() - i,
    {
        let b = bytes[i];
        assert(bytes@.take(i + 1).drop_last() =~= bytes@.take(i as int));
        if (65 <= b && b <= 90) || (97 <= b && b <= 122) || (48 <= b && b <= 57) || b == 45 || b == 95
            || b == 46 || b == 126 {
            out.push(b as char);
        } else if b == 32 {
            out.push('+');
        } else {
            out.push('%');
            out.push(hex_upper_exec(b / 16));
            out.push(hex_upper_exec(b % 16));
        }
        assert(out@ =~= url_encode(bytes@.take(i + 1)));
        i += 1;
    }
    assert(bytes@.take(bytes@.len() as int) =~= bytes@);
    crate::text::string_of(out.as_slice())
}


/// A plain lowercase id (letters and `_`) is its own trimmed, lowercased form.
proof fn lemma_plain_id(s: Seq<char>)
    requires
        s.len() > 0,
        forall|k: int| 0 <= k < s.len() ==> ('a' <= #[trigger] s[k] <= 'z' || s[k] == '_'),
    ensures
        crate::text::trim(s) == s,
        crate::text::to_lower(s) == s,
{
    assert(!crate::text::is_ws(s[0]));
    assert(crate::text::trim_start(s) == s);
    assert(!crate::text::is_ws(s.last()));
    assert(crate::text::trim_end(s) == s);
    assert(crate::text::to_lower(s) =~= s);
}

/// An id where no `m` is followed by `al` does not contain `male`.
proof fn lemma_no_male(s: Seq<char>)
    requires
        forall|k: int| 0 <= k < s.len() - 2 ==> !(#[trigger] s[k] == 'm' && s[k + 1] == 'a' && s[k + 2] == 'l'),
    ensures
        !contains(s, "male"@),
{
    reveal_strlit("male");
    if contains(s, "male"@) {
        let i = choose|i: int| crate::text::occurs_at(s, "male"@, i);
        assert(s.subrange(i, i + 4)[0] == 'm' && s.subrange(i, i + 4)[1] == 'a' && s.subrange(i, i + 4)[2] == 'l');
        assert(s[i] == 'm' && s[i + 1] == 'a' && s[i + 2] == 'l');
    }
}

/// Each built-in voice's gender is the one its id gives (`voice_gender_from_id`).
pub proof fn law_fallback_gender_agrees()
    ensures
        forall|i: int|
            0 <= i < fallback_voices().len() ==> crate::tts::gender_of_id(
                (#[trigger] fallback_voices()[i]).id,
            ).name_of() == fallback_voices()[i].gender,
{
    let f = fallback_voices();
    reveal_strlit("af_heart");
    reveal_strlit("af_bella");
    reveal_strlit("af_nicole");
    reveal_strlit("af_sarah");
    reveal_strlit("af_kore");
    reveal_strlit("af_aoede");
    reveal_strlit("af_nova");
    reveal_strlit("bf_emma");
    reveal_strlit("bf_isabella");
    reveal_strlit("am_michael");
    reveal_strlit("am_fenrir");
    reveal_strlit("am_puck");
    reveal_strlit("am_echo");
    reveal_strlit("am_liam");
    reveal_strlit("bm_george");
    reveal_strlit("bm_fable");
    reveal_strlit("am_");
    reveal_strlit("bm_");
    reveal_strlit("male");
    reveal_strlit("female");
    assert(f[0].id == "af_heart"@);
    assert forall|k: int| 0 <= k < f[0].id.len() implies ('a' <= #[trigger] f[0].id[k] <= 'z' || f[0].id[k] == '_') by {
        assert(k == 0 || k == 1 || k == 2 || k == 3 || k == 4 || k == 5 || k == 6 || k == 7);
    }
    lemma_plain_id(f[0].id);
    assert forall|k: int| 0 <= k < f[0].id.len() - 2 implies !(#[trigger] f[0].id[k] == 'm' && f[0].id[k + 1] == 'a' && f[0].id[k + 2] == 'l') by {
        assert(k == 0 || k == 1 || k == 2 || k == 3 || k == 4 || k == 5);
    }
    lemma_no_male(f[0].id);
    assert(f[1].id == "af_bella"@);
    assert forall|k: int| 0 <= k < f[1].id.len() implies ('a' <= #[trigger] f[1].id[k] <= 'z' || f[1].id[k] == '_') by {
        assert(k == 0 || k == 1 || k == 2 || k == 3 || k == 4 || k == 5 || k == 6 || k == 7);
    }
    lemma_plain_id(f[1].id);
    assert forall|k: int| 0 <= k < f[1].id.len() - 2 implies !(#[trigger] f[1].id[k] == 'm' && f[1].id[k + 1] == 'a' && f[1].id[k + 2] == 'l') by {
        assert(k == 0 || k == 1 || k == 2 || k == 3 || k == 4 || k == 5);
    }
    lemma_no_male(f[1].id);
    assert(f[2].id == "af_nicole"@);
    assert forall|k: int| 0 <= k < f[2].id.len() implies ('a' <= #[trigger] f[2].id[k] <= 'z' || f[2].id[k] == '_') by {
        assert(k == 0 || k == 1 || k == 2 || k == 3 || k == 4 || k == 5 || k == 6 || k == 7 || k == 8);
    }
    lemma_plain_id(f[2].id);
    assert forall|k: int| 0 <= k < f[2].id.len() - 2 implies !(#[trigger] f[2].id[k] == 'm' && f[2].id[k + 1] == 'a' && f[2].id[k + 2] == 'l') by {
        assert(k == 0 || k == 1 || k == 2 || k == 3 || k == 4 || k == 5 || k == 6);
    }
    lemma_no_male(f[2].id);
    assert(f[3].id == "af_sarah"@);
    assert forall|k: int| 0 <= k < f[3].id.len() implies ('a' <= #[trigger] f[3].id[k] <= 'z' || f[3].id[k] == '_') by {
        assert(k == 0 || k == 1 || k == 2 || k == 3 || k == 4 || k == 5 || k == 6 || k == 7);
    }
    lemma_plain_id(f[3].id);
    assert forall|k: int| 0 <= k < f[3].id.len() - 2 implies !(#[trigger] f[3].id[k] == 'm' && f[3].id[k + 1] == 'a' && f[3].id[k + 2] == 'l') by {
        assert(k == 0 || k == 1 || k == 2 || k == 3 || k == 4 || k == 5);
    }
    lemma_no_male(f[3].id);
    assert(f[4].id == "af_kore"@);
    assert forall|k: int| 0 <= k < f[4].id.len() implies ('a' <= #[trigger] f[4].id[k] <= 'z' || f[4].id[k] == '_') by {
        assert(k == 0 || k == 1 || k == 2 || k == 3 || k == 4 || k == 5 || k == 6);
    }
    lemma_plain_id(f[4].id);
    assert forall|k: int| 0 <= k < f[4].id.len() - 2 implies !(#[trigger] f[4].id[k] == 'm' && f[4].id[k + 1] == 'a' && f[4].id[k + 2] == 'l') by {
        assert(k == 0 || k == 1 || k == 2 || k == 3 || k == 4);
    }
    lemma_no_male(f[4].id);
    assert(f[5].id == "af_aoede"@);
    assert forall|k: int| 0 <= k < f[5].id.len() implies ('a' <= #[trigger] f[5].id[k] <= 'z' || f[5].id[k] == '_') by {
        assert(k == 0 || k == 1 || k == 2 || k == 3 || k == 4 || k == 5 || k == 6 || k == 7);
    }
    lemma_plain_id(f[5].id);
    assert forall|k: int| 0 <= k < f[5].id.len() - 2 implies !(#[trigger] f[5].id[k] == 'm' && f[5].id[k + 1] == 'a' && f[5].id[k + 2] == 'l') by {
        assert(k == 0 || k == 1 || k == 2 || k == 3 || k == 4 || k == 5);
    }
    lemma_no_male(f[5].id);
    assert(f[6].id == "af_nova"@);
    assert forall|k: int| 0 <= k < f[6].id.len() implies ('a' <= #[trigger] f[6].id[k] <= 'z' || f[6].id[k] == '_') by {
        assert(k == 0 || k == 1 || k == 2 || k == 3 || k == 4 || k == 5 || k == 6);
    }
    lemma_plain_id(f[6].id);
    assert forall|k: int| 0 <= k < f[6].id.len() - 2 implies !(#[trigger] f[6].id[k] == 'm' && f[6].id[k + 1] == 'a' && f[6].id[k + 2] == 'l') by {
        assert(k == 0 || k == 1 || k == 2 || k == 3 || k == 4);
    }
    lemma_no_male(f[6].id);
    assert(f[7].id == "bf_emma"@);
    assert forall|k: int| 0 <= k < f[7].id.len() implies ('a' <= #[trigger] f[7].id[k] <= 'z' || f[7].id[k] == '_') by {
        assert(k == 0 || k == 1 || k == 2 || k == 3 || k == 4 || k == 5 || k == 6);
    }
    lemma_plain_id(f[7].id);
    assert forall|k: int| 0 <= k < f[7].id.len() - 2 implies !(#[trigger] f[7].id[k] == 'm' && f[7].id[k + 1] == 'a' && f[7].id[k + 2] == 'l') by {
        assert(k == 0 || k == 1 || k == 2 || k == 3 || k == 4);
    }
    lemma_no_male(f[7].id);
    assert(f[8].id == "bf_isabella"@);
    assert forall|k: int| 0 <= k < f[8].id.len() implies ('a' <= #[trigger] f[8].id[k] <= 'z' || f[8].id[k] == '_') by {
        assert(k == 0 || k == 1 || k == 2 || k == 3 || k == 4 || k == 5 || k == 6 || k == 7 || k == 8 || k == 9 || k == 10);
    }
    lemma_plain_id(f[8].id);
    assert forall|k: int| 0 <= k < f[8].id.len() - 2 implies !(#[trigger] f[8].id[k] == 'm' && f[8].id[k + 1] == 'a' && f[8].id[k + 2] == 'l') by {
        assert(k == 0 || k == 1 || k == 2 || k == 3 || k == 4 || k == 5 || k == 6 || k == 7 || k == 8);
    }
    lemma_no_male(f[8].id);
    assert(f[9].id == "am_michael"@);
    assert forall|k: int| 0 <= k < f[9].id.len() implies ('a' <= #[trigger] f[9].id[k] <= 'z' || f[9].id[k] == '_') by {
        assert(k == 0 || k == 1 || k == 2 || k == 3 || k == 4 || k == 5 || k == 6 || k == 7 || k == 8 || k == 9);
    }
    lemma_plain_id(f[9].id);
    assert(f[10].id == "am_fenrir"@);
    assert forall|k: int| 0 <= k < f[10].id.len() implies ('a' <= #[trigger] f[10].id[k] <= 'z' || f[10].id[k] == '_') by {
        assert(k == 0 || k == 1 || k == 2 || k == 3 || k == 4 || k == 5 || k == 6 || k == 7 || k == 8);
    }
    lemma_plain_id(f[10].id);
    assert(f[11].id == "am_puck"@);
    assert forall|k: int| 0 <= k < f[11].id.len() implies ('a' <= #[trigger] f[11].id[k] <= 'z' || f[11].id[k] == '_') by {
        assert(k == 0 || k == 1 || k == 2 || k == 3 || k == 4 || k == 5 || k == 6);
    }
    lemma_plain_id(f[11].id);
    assert(f[12].id == "am_echo"@);
    assert forall|k: int| 0 <= k < f[12].id.len() implies ('a' <= #[trigger] f[12].id[k] <= 'z' || f[12].id[k] == '_') by {
        assert(k == 0 || k == 1 || k == 2 || k == 3 || k == 4 || k == 5 || k == 6);
    }
    lemma_plain_id(f[12].id);
    assert(f[13].id == "am_liam"@);
    assert forall|k: int| 0 <= k < f[13].id.len() implies ('a' <= #[trigger] f[13].id[k] <= 'z' || f[13].id[k] == '_') by {
        assert(k == 0 || k == 1 || k == 2 || k == 3 || k == 4 || k == 5 || k == 6);
    }
    lemma_plain_id(f[13].id);
    assert(f[14].id == "bm_george"@);
    assert forall|k: int| 0 <= k < f[14].id.len() implies ('a' <= #[trigger] f[14].id[k] <= 'z' || f[14].id[k] == '_') by {
        assert(k == 0 || k == 1 || k == 2 || k == 3 || k == 4 || k == 5 || k == 6 || k == 7 || k == 8);
    }
    lemma_plain_id(f[14].id);
    assert(f[15].id == "bm_fable"@);
    assert forall|k: int| 0 <= k < f[15].id.len() implies ('a' <= #[trigger] f[15].id[k] <= 'z' || f[15].id[k] == '_') by {
        assert(k == 0 || k == 1 || k == 2 || k == 3 || k == 4 || k == 5 || k == 6 || k == 7);
    }
    lemma_plain_id(f[15].id);
    assert forall|i: int| 0 <= i < f.len() implies crate::tts::gender_of_id((#[trigger] f[i]).id).name_of()
        == f[i].gender by {
        assert(f[i].id.take(3) =~= seq![f[i].id[0], f[i].id[1], f[i].id[2]]);
        assert("am_"@ =~= seq!['a', 'm', '_'] && "bm_"@ =~= seq!['b', 'm', '_']);
        assert(i == 0 || i == 1 || i == 2 || i == 3 || i == 4 || i == 5 || i == 6 || i == 7 || i == 8
            || i == 9 || i == 10 || i == 11 || i == 12 || i == 13 || i == 14 || i == 15);
    }
}

} // verus!
