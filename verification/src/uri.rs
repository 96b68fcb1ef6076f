//! The `file:` URIs under which a pipeline finds a track.
use vstd::prelude::*;
use vstd::string::*;
use vstd::utf8::*;

verus! {

/// Whether a byte stands for itself in a URI.
pub open spec fn unreserved(byte: u8) -> bool {
    ||| 0x30 <= byte <= 0x39
    ||| 0x41 <= byte <= 0x5A
    ||| 0x61 <= byte <= 0x7A
    ||| byte == 0x2D
    ||| byte == 0x2E
    ||| byte == 0x5F
    ||| byte == 0x7E
}

/// The upper-case hexadecimal digit of a number below 16.
pub open spec fn hex_digit(value: int) -> char {
    if value < 10 {
        (0x30 + value) as char
    } else {
        (0x41 + value - 10) as char
    }
}

/// A byte as `%` and two hexadecimal digits.
pub open spec fn escape(byte: u8) -> Seq<char> {
    seq!['%', hex_digit(byte as int / 16), hex_digit(byte as int % 16)]
}

/// Every byte as itself if it is unreserved, and escaped otherwise.
pub open spec fn percent_encoded(bytes: Seq<u8>) -> Seq<char>
    decreases bytes.len(),
{
    if bytes.len() == 0 {
        Seq::empty()
    } else {
        (if unreserved(bytes[0]) {
            seq![bytes[0] as char]
        } else {
            escape(bytes[0])
        }) + percent_encoded(bytes.drop_first())
    }
}

/// The bytes of a path as they stand in a URI: unreserved bytes and the separator `/`
/// as themselves, all others escaped.
pub open spec fn path_encoded(bytes: Seq<u8>) -> Seq<char>
    decreases bytes.len(),
{
    if bytes.len() == 0 {
        Seq::empty()
    } else {
        (if unreserved(bytes[0]) || bytes[0] == 0x2F {
            seq![bytes[0] as char]
        } else {
            escape(bytes[0])
        }) + path_encoded(bytes.drop_first())
    }
}

/// The URI of the file at a path.
pub open spec fn file_uri_of(path: Seq<char>) -> Seq<char> {
    "file:"@ + path_encoded(encode_utf8(path))
}

/// Every escaped `/`, read from the left, turned back into `/`.
pub open spec fn slashes_restored(text: Seq<char>) -> Seq<char>
    decreases text.len(),
{
    if text.len() == 0 {
        Seq::empty()
    } else if text.len() >= 3 && text[0] == '%' && text[1] == '2' && text[2] == 'F' {
        seq!['/'] + slashes_restored(text.skip(3))
    } else {
        seq![text[0]] + slashes_restored(text.skip(1))
    }
}

/// `urlencoding::encode`: percent-encodes the UTF-8 bytes of a text, except the ASCII
/// letters and digits and `-`, `.`, `_` and `~`.
#[verifier::external_body]
fn percent_encode(text: &str) -> (encoded: String)
    ensures
        encoded@ == percent_encoded(text.spec_bytes()),
{
    urlencoding::encode(text).into_owned()
}

proof fn lemma_hex_digit(value: int)
    requires
        0 <= value < 16,
    ensures
        hex_digit(value) != '%',
        (hex_digit(value) as int) < 128,
        hex_digit(value) == '2' <==> value == 2,
        hex_digit(value) == 'F' <==> value == 15,
{
}

/// Restoring the slashes of percent-encoded bytes gives the encoding of a path.
proof fn lemma_restore(bytes: Seq<u8>)
    ensures
        slashes_restored(percent_encoded(bytes)) == path_encoded(bytes),
        is_ascii_chars(percent_encoded(bytes)),
    decreases bytes.len(),
{
    if bytes.len() > 0 {
        let byte = bytes[0];
        let rest = percent_encoded(bytes.drop_first());
        let text = percent_encoded(bytes);
        lemma_restore(bytes.drop_first());
        if unreserved(byte) {
            assert(text.skip(1) =~= rest);
        } else {
            let high = byte as int / 16;
            let low = byte as int % 16;
            lemma_hex_digit(high);
            lemma_hex_digit(low);
            assert(text.skip(3) =~= rest);
            if byte != 0x2F {
                let one = text.skip(1);
                let two = one.skip(1);
                assert(two.skip(1) =~= rest);
                assert(one[0] == hex_digit(high));
                assert(two[0] == hex_digit(low));
                assert(slashes_restored(two) == seq![hex_digit(low)] + slashes_restored(rest));
                assert(slashes_restored(one) == seq![hex_digit(high)] + slashes_restored(two));
                assert(slashes_restored(text) =~= escape(byte) + slashes_restored(rest));
            }
        }
    }
}

/// Turns every `%2F` of an ASCII text into `/`.
fn restore_slashes(text: &str) -> (restored: String)
    requires
        text.is_ascii(),
    ensures
        restored@ == slashes_restored(text@),
{
    let len: usize = text.unicode_len();
    let mut restored: String = String::new();
    let mut i: usize = 0;
    assert(text@.skip(0) =~= text@);
    while i < len
        invariant
            text.is_ascii(),
            len == text@.len(),
            i <= len,
            slashes_restored(text@) =~= restored@ + slashes_restored(text@.skip(i as int)),
        decreases len - i,
    {
        proof {
            assert(text@.skip(i as int).skip(1) =~= text@.skip(i + 1));
            if i + 3 <= len {
                assert(text@.skip(i as int).skip(3) =~= text@.skip(i + 3));
            }
            assert(is_ascii_chars(text@));
        }
        if len - i >= 3 && text.get_ascii(i) == 0x25 && text.get_ascii(i + 1) == 0x32
            && text.get_ascii(i + 2) == 0x46 {
            proof {
                reveal_strlit("/");
            }
            restored.append("/");
            i = i + 3;
        } else {
            restored.append(text.substring_ascii(i, i + 1));
            i = i + 1;
        }
    }
    assert(text@.skip(len as int) =~= Seq::empty());
    restored
}

/// The URI of the file at `path`.
pub fn file_uri(path: &str) -> (uri: String)
    ensures
        uri@ == file_uri_of(path@),
{
    let encoded: String = percent_encode(path);
    proof {
        lemma_restore(path.spec_bytes());
    }
    let restored: String = restore_slashes(encoded.as_str());
    let mut uri: String = "file:".to_owned();
    uri.append(restored.as_str());
    uri
}

/// The first byte of a path and the encoding of the others, read off its encoding.
proof fn lemma_path_head(bytes: Seq<u8>)
    requires
        bytes.len() > 0,
    ensures
        ({
            let text = path_encoded(bytes);
            let rest = path_encoded(bytes.drop_first());
            let byte = bytes[0];
            if unreserved(byte) || byte == 0x2F {
                &&& text.len() > 0
                &&& text[0] == byte as char
                &&& text[0] != '%'
                &&& text.skip(1) == rest
            } else {
                &&& text.len() >= 3
                &&& text[0] == '%'
                &&& text[1] == hex_digit(byte as int / 16)
                &&& text[2] == hex_digit(byte as int % 16)
                &&& text.skip(3) == rest
            }
        }),
{
    let text = path_encoded(bytes);
    let rest = path_encoded(bytes.drop_first());
    if unreserved(bytes[0]) || bytes[0] == 0x2F {
        assert(text.skip(1) =~= rest);
    } else {
        assert(text.skip(3) =~= rest);
    }
}

proof fn lemma_path_encoding_injective(a: Seq<u8>, b: Seq<u8>)
    requires
        path_encoded(a) == path_encoded(b),
    ensures
        a == b,
    decreases a.len(),
{
    if a.len() > 0 {
        lemma_path_head(a);
    }
    if b.len() > 0 {
        lemma_path_head(b);
    }
    if a.len() > 0 && b.len() > 0 {
        assert(a[0] == b[0]);
        lemma_path_encoding_injective(a.drop_first(), b.drop_first());
        assert(a =~= seq![a[0]] + a.drop_first());
        assert(b =~= seq![b[0]] + b.drop_first());
    } else {
        assert(a =~= b);
    }
}

proof fn lemma_path_concat(a: Seq<u8>, b: Seq<u8>)
    ensures
        path_encoded(a + b) == path_encoded(a) + path_encoded(b),
    decreases a.len(),
{
    if a.len() == 0 {
        assert(a + b =~= b);
        assert(path_encoded(a) + path_encoded(b) =~= path_encoded(b));
    } else {
        assert((a + b).drop_first() =~= a.drop_first() + b);
        lemma_path_concat(a.drop_first(), b);
        assert(path_encoded(a + b) =~= path_encoded(a) + path_encoded(b));
    }
}

/// The URI of a path is `file:` and what each byte of the path gives, in order: letters,
/// digits, `-`, `.`, `_`, `~` and `/` give themselves, every other byte gives `%` and its two
/// hexadecimal digits in upper case.
pub proof fn law_uri_bytewise(path: Seq<char>, a: Seq<u8>, b: Seq<u8>, byte: u8)
    ensures
        file_uri_of(path) == seq!['f', 'i', 'l', 'e', ':'] + path_encoded(encode_utf8(path)),
        path_encoded(Seq::empty()) == Seq::<char>::empty(),
        path_encoded(a + b) == path_encoded(a) + path_encoded(b),
        ({
            let kept = ('a' <= byte as char <= 'z') || ('A' <= byte as char <= 'Z') || ('0'
                <= byte as char <= '9') || byte == '-' as u8 || byte == '.' as u8 || byte == '_' as u8
                || byte == '~' as u8 || byte == '/' as u8;
            let digits = seq![
                '0', '1', '2', '3', '4', '5', '6', '7', '8', '9', 'A', 'B', 'C', 'D', 'E', 'F',
            ];
            path_encoded(seq![byte]) == (if kept {
                seq![byte as char]
            } else {
                seq!['%', digits[byte as int / 16], digits[byte as int % 16]]
            })
        }),
{
    reveal_strlit("file:");
    assert("file:"@ =~= seq!['f', 'i', 'l', 'e', ':']);
    lemma_path_concat(a, b);
    let rest = path_encoded(seq![byte].drop_first());
    assert(seq![byte].drop_first() =~= Seq::empty());
    assert(rest =~= Seq::empty());
    assert(seq![byte as char] + rest =~= seq![byte as char]);
    assert(escape(byte) + rest =~= escape(byte));
}

/// Two paths have the same URI only if they are the same path.
pub proof fn law_uri_identifies_path(a: Seq<char>, b: Seq<char>)
    ensures
        file_uri_of(a) == file_uri_of(b) <==> a == b,
{
    if file_uri_of(a) == file_uri_of(b) {
        let prefix = "file:"@.len() as int;
        assert(path_encoded(encode_utf8(a)) =~= file_uri_of(a).skip(prefix));
        assert(path_encoded(encode_utf8(b)) =~= file_uri_of(b).skip(prefix));
        lemma_path_encoding_injective(encode_utf8(a), encode_utf8(b));
        encode_utf8_decode_utf8(a);
        encode_utf8_decode_utf8(b);
    }
}

} // verus!
