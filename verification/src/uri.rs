//! Paths as `file://` addresses, which is the only way a language server names
//! a file.
use vstd::prelude::*;
use vstd::string::*;
use vstd::utf8::*;

use crate::chars::chars_of;
use crate::strings::{begins, stripped};

verus! {

/// `String::from_utf8` makes a string of bytes that are UTF-8, and fails on
/// any others.
#[verifier::external_body]
fn from_bytes(v: Vec<u8>) -> (r: Option<String>)
    ensures
        match r {
            Some(s) => valid_utf8(v@) && s@ == decode_utf8(v@),
            None => !valid_utf8(v@),
        },
{
    String::from_utf8(v).ok()
}

/// Whether a byte stands for itself in an address: what is unreserved, and
/// the slash that a path is made of.
pub open spec fn plain(b: u8) -> bool {
    0x41 <= b <= 0x5a || 0x61 <= b <= 0x7a || 0x30 <= b <= 0x39 || b == 0x2d || b == 0x2e || b
        == 0x5f || b == 0x7e || b == 0x2f
}

/// The sixteenth for a number below that, with a capital.
pub open spec fn capital(n: u8) -> char {
    match n {
        0 => '0',
        1 => '1',
        2 => '2',
        3 => '3',
        4 => '4',
        5 => '5',
        6 => '6',
        7 => '7',
        8 => '8',
        9 => '9',
        10 => 'A',
        11 => 'B',
        12 => 'C',
        13 => 'D',
        14 => 'E',
        _ => 'F',
    }
}

/// A byte as it is written in an address.
pub open spec fn written_byte(b: u8) -> Seq<char> {
    if plain(b) { seq![b as char] } else { seq!['%', capital(b / 16), capital(b % 16)] }
}

/// Bytes as they are written in an address.
pub open spec fn written_bytes(bs: Seq<u8>) -> Seq<char>
    decreases bs.len(),
{
    if bs.len() == 0 {
        Seq::empty()
    } else {
        written_byte(bs[0]) + written_bytes(bs.skip(1))
    }
}

/// A path as an address.
pub open spec fn uri(path: Seq<char>) -> Seq<char> {
    "file://"@ + written_bytes(encode_utf8(path))
}

/// What a byte stands for as a sixteenth, of either case.
pub open spec fn sixteenth_worth(b: u8) -> Option<u8> {
    if 0x30 <= b <= 0x39 {
        Some((b - 0x30) as u8)
    } else if 0x41 <= b <= 0x46 {
        Some((b - 0x41 + 10) as u8)
    } else if 0x61 <= b <= 0x66 {
        Some((b - 0x61 + 10) as u8)
    } else {
        None
    }
}

/// The byte that two written bytes stand for: two sixteenths, or a plus and
/// one.
pub open spec fn pair_worth(a: u8, b: u8) -> Option<u8> {
    match (sixteenth_worth(a), sixteenth_worth(b)) {
        (Some(x), Some(y)) => Some((x * 16 + y) as u8),
        (None, Some(y)) => if a == 0x2b { Some(y) } else { None },
        _ => None,
    }
}

/// The bytes that an address stands for, from `i` on. None where what follows
/// a percent sign is not text.
pub open spec fn read_bytes(bs: Seq<u8>, i: int) -> Option<Seq<u8>>
    decreases bs.len() - i,
{
    if i < 0 || i >= bs.len() {
        Some(Seq::empty())
    } else if bs[i] == 0x25 && i + 2 < bs.len() && !valid_utf8(bs.subrange(i + 1, i + 3)) {
        None
    } else if bs[i] == 0x25 && i + 2 < bs.len() && pair_worth(bs[i + 1], bs[i + 2]) is Some {
        match read_bytes(bs, i + 3) {
            Some(rest) => Some(seq![pair_worth(bs[i + 1], bs[i + 2])->0] + rest),
            None => None,
        }
    } else {
        match read_bytes(bs, i + 1) {
            Some(rest) => Some(seq![bs[i]] + rest),
            None => None,
        }
    }
}

/// The path that an address names, where it names a file.
pub open spec fn path_in(address: Seq<char>) -> Option<Seq<char>> {
    match stripped(address, "file://"@) {
        Some(rest) => match read_bytes(encode_utf8(rest), 0) {
            Some(bs) => if valid_utf8(bs) { Some(decode_utf8(bs)) } else { None },
            None => None,
        },
        None => None,
    }
}

fn to_capital(n: u8) -> (c: char)
    ensures
        c == capital(n),
{
    match n {
        0 => '0',
        1 => '1',
        2 => '2',
        3 => '3',
        4 => '4',
        5 => '5',
        6 => '6',
        7 => '7',
        8 => '8',
        9 => '9',
        10 => 'A',
        11 => 'B',
        12 => 'C',
        13 => 'D',
        14 => 'E',
        _ => 'F',
    }
}

/// A path as an address.
pub fn uri_of(path: &str) -> (s: String)
    ensures
        s@ == uri(path@),
{
    let mut out: String = "file://".to_owned();
    let bytes = path.as_bytes();
    let ghost all = written_bytes(bytes@);
    let mut i: usize = 0;
    assert(bytes@.skip(0) =~= bytes@);
    while i < bytes.len()
        invariant
            i <= bytes@.len(),
            out@ + written_bytes(bytes@.skip(i as int)) == "file://"@ + all,
        decreases bytes@.len() - i,
    {
        let b = bytes[i];
        let ghost had = out@;
        let ghost rest = bytes@.skip(i as int);
        if (0x41 <= b && b <= 0x5a) || (0x61 <= b && b <= 0x7a) || (0x30 <= b && b <= 0x39) || b
            == 0x2d || b == 0x2e || b == 0x5f || b == 0x7e || b == 0x2f {
            out.push(b as char);
        } else {
            out.push('%');
            out.push(to_capital(b / 16));
            out.push(to_capital(b % 16));
        }
        assert(out@ =~= had + written_byte(b));
        assert(rest.skip(1) =~= bytes@.skip(i + 1));
        i = i + 1;
        assert(out@ + written_bytes(bytes@.skip(i as int)) =~= had + written_bytes(rest));
    }
    assert(out@ =~= out@ + written_bytes(bytes@.skip(i as int)));
    out
}

fn worth(b: u8) -> (r: Option<u8>)
    ensures
        r == sixteenth_worth(b),
        r is Some ==> r->0 < 16,
{
    if 0x30 <= b && b <= 0x39 {
        Some(b - 0x30)
    } else if 0x41 <= b && b <= 0x46 {
        Some(b - 0x41 + 10)
    } else if 0x61 <= b && b <= 0x66 {
        Some(b - 0x61 + 10)
    } else {
        None
    }
}

fn worth_of_two(a: u8, b: u8) -> (r: Option<u8>)
    ensures
        r == pair_worth(a, b),
{
    match (worth(a), worth(b)) {
        (Some(x), Some(y)) => Some(x * 16 + y),
        (None, Some(y)) => if a == 0x2b { Some(y) } else { None },
        _ => None,
    }
}

/// The path that an address names. None for one naming something that is not
/// a file.
pub fn path_of(address: &str) -> (r: Option<String>)
    ensures
        match path_in(address@) {
            Some(path) => r is Some && r->0@ == path,
            None => r is None,
        },
{
    let v = chars_of(address);
    if !begins(&v, "file://") {
        return None;
    }
    let prefix = chars_of("file://");
    let text = crate::chars::string_of(&v, prefix.len(), v.len());
    assert(text@ =~= v@.skip(prefix@.len() as int));
    let bytes = text.as_str().as_bytes();
    let ghost all = read_bytes(bytes@, 0);
    let len = bytes.len();
    let mut out: Vec<u8> = Vec::new();
    let mut i: usize = 0;
    proof {
        match all {
            Some(bs) => {
                assert(out@ + bs =~= bs);
            },
            None => {},
        }
    }
    while i < len
        invariant
            len == bytes@.len(),
            i <= len,
            all == read_bytes(bytes@, 0),
            path_in(address@) == (match all {
                Some(bs) => if valid_utf8(bs) { Some(decode_utf8(bs)) } else { None },
                None => None,
            }),
            match read_bytes(bytes@, i as int) {
                Some(rest) => all == Some(out@ + rest),
                None => all is None,
            },
        decreases len - i,
    {
        let ghost had = out@;
        let ghost rest = read_bytes(bytes@, i as int);
        if bytes[i] == 0x25 && len - i > 2 {
            let mut two: Vec<u8> = Vec::new();
            two.push(bytes[i + 1]);
            two.push(bytes[i + 2]);
            assert(two@ =~= bytes@.subrange(i + 1, i + 3));
            if from_bytes(two).is_none() {
                return None;
            }
            if let Some(b) = worth_of_two(bytes[i + 1], bytes[i + 2]) {
                out.push(b);
                i = i + 3;
                proof {
                    match read_bytes(bytes@, i as int) {
                        Some(more) => {
                            assert(had + (seq![b] + more) =~= out@ + more);
                        },
                        None => {},
                    }
                }
                continue ;
            }
        }
        let b = bytes[i];
        out.push(b);
        i = i + 1;
        proof {
            match read_bytes(bytes@, i as int) {
                Some(more) => {
                    assert(had + (seq![b] + more) =~= out@ + more);
                },
                None => {},
            }
        }
    }
    assert(out@ + Seq::<u8>::empty() =~= out@);
    from_bytes(out)
}

proof fn lemma_capital(n: u8)
    requires
        n < 16,
    ensures
        sixteenth_worth(capital(n) as u8) == Some(n),
        '\0' <= capital(n) <= '\u{7f}',
{
}

proof fn lemma_two_ascii(bs: Seq<u8>)
    requires
        bs.len() == 2,
        bs[0] < 0x80,
        bs[1] < 0x80,
    ensures
        valid_utf8(bs),
{
    let cs = seq![bs[0] as char, bs[1] as char];
    assert(is_ascii_chars(cs));
    is_ascii_chars_encode_utf8(cs);
    assert(encode_utf8(cs) =~= bs) by {
        assert(cs[0] as u8 == encode_utf8(cs)[0]);
        assert(cs[1] as u8 == encode_utf8(cs)[1]);
    }
    encode_utf8_valid_utf8(cs);
}

/// The bytes of an address that is plain text.
spec fn bytes_of(cs: Seq<char>) -> Seq<u8> {
    cs.map_values(|c: char| c as u8)
}

proof fn lemma_written_is_ascii(bs: Seq<u8>)
    ensures
        is_ascii_chars(written_bytes(bs)),
    decreases bs.len(),
{
    if bs.len() > 0 {
        lemma_written_is_ascii(bs.skip(1));
        lemma_capital(bs[0] / 16);
        lemma_capital(bs[0] % 16);
        let rest = written_bytes(bs.skip(1));
        let all = written_bytes(bs);
        let one = written_byte(bs[0]);
        assert forall|i: int| 0 <= i < all.len() implies '\0' <= #[trigger] all[i] <= '\u{7f}' by {
            if i < one.len() {
                assert(all[i] == one[i]);
            } else {
                assert(all[i] == rest[i - one.len()]);
            }
        }
    }
}

proof fn lemma_reads_back(all: Seq<u8>, i: int, bs: Seq<u8>)
    requires
        0 <= i <= all.len(),
        all.skip(i) == bytes_of(written_bytes(bs)),
    ensures
        read_bytes(all, i) == Some(bs),
    decreases bs.len(),
{
    let w = written_bytes(bs);
    assert(all.skip(i).len() == w.len());
    if bs.len() == 0 {
        assert(read_bytes(all, i) == Some(Seq::<u8>::empty()));
        assert(bs =~= Seq::<u8>::empty());
    } else {
        let b = bs[0];
        let one = written_byte(b);
        let rest = bs.skip(1);
        assert(w == one + written_bytes(rest));
        let n = one.len() as int;
        assert(all.skip(i + n) =~= bytes_of(written_bytes(rest))) by {
            assert forall|k: int| 0 <= k < all.len() - i - n implies (#[trigger] all.skip(i + n)[k])
                == bytes_of(written_bytes(rest))[k] by {
                assert(all.skip(i)[n + k] == w[n + k] as u8);
                assert(w[n + k] == written_bytes(rest)[k]);
            }
        }
        lemma_reads_back(all, i + n, rest);
        assert(all[i] == all.skip(i)[0]);
        assert(w[0] == one[0]);
        assert(seq![b] + rest =~= bs);
        if !plain(b) {
            lemma_capital(b / 16);
            lemma_capital(b % 16);
            assert(all[i + 1] == all.skip(i)[1] && all[i + 2] == all.skip(i)[2]);
            assert(w[1] == one[1] && w[2] == one[2]);
            assert(all[i] == 0x25);
            lemma_two_ascii(all.subrange(i + 1, i + 3));
            assert(pair_worth(all[i + 1], all[i + 2]) == Some(b));
        } else {
            assert(all[i] == b);
        }
    }
}

/// A path survives the way through an address.
pub proof fn law_a_path_survives_an_address(path: Seq<char>)
    ensures
        path_in(uri(path)) == Some(path),
{
    let bs = encode_utf8(path);
    let w = written_bytes(bs);
    assert(uri(path).skip("file://"@.len() as int) =~= w);
    assert("file://"@.is_prefix_of(uri(path))) by {
        assert(uri(path).subrange(0, "file://"@.len() as int) =~= "file://"@);
    }
    lemma_written_is_ascii(bs);
    is_ascii_chars_encode_utf8(w);
    assert(encode_utf8(w) =~= bytes_of(w)) by {
        assert forall|i: int| 0 <= i < w.len() implies (#[trigger] encode_utf8(w)[i]) == bytes_of(
            w,
        )[i] by {
            assert(w[i] as u8 == encode_utf8(w)[i]);
        }
    }
    let all = encode_utf8(w);
    assert(all.skip(0) =~= all);
    lemma_reads_back(all, 0, bs);
    encode_utf8_valid_utf8(path);
    encode_utf8_decode_utf8(path);
}

/// Whether a character may stand in an address: a letter or a digit of ASCII, one of the
/// four marks that are not reserved, a slash, or the per cent sign that what stands for
/// another byte begins with.
pub open spec fn is_plain_char(c: char) -> bool {
    let n = c as u32;
    0x41 <= n <= 0x5a || 0x61 <= n <= 0x7a || 0x30 <= n <= 0x39 || c == '-' || c == '.' || c == '_'
        || c == '~' || c == '/' || c == '%'
}

/// An address is that of a file, and holds nothing behind that but plain characters.
pub proof fn law_an_address_is_written_in_plain_characters(path: Seq<char>, i: int)
    ensures
        "file://"@.is_prefix_of(uri(path)),
        7 <= i < uri(path).len() ==> is_plain_char(uri(path)[i]),
{
    reveal_strlit("file://");
    assert("file://"@.len() == 7);
    let bs = encode_utf8(path);
    assert(uri(path).take(7) =~= "file://"@);
    if 7 <= i < uri(path).len() {
        lemma_plain_written(bs, i - 7);
        assert(uri(path)[i] == written_bytes(bs)[i - 7]);
    }
}

proof fn lemma_plain_written(bs: Seq<u8>, i: int)
    requires
        0 <= i < written_bytes(bs).len(),
    ensures
        is_plain_char(written_bytes(bs)[i]),
    decreases bs.len(),
{
    if bs.len() > 0 {
        let first = written_byte(bs[0]);
        let rest = written_bytes(bs.skip(1));
        if i < first.len() {
            assert(written_bytes(bs)[i] == first[i]);
        } else {
            lemma_plain_written(bs.skip(1), i - first.len());
            assert(written_bytes(bs)[i] == rest[i - first.len()]);
        }
    }
}

} // verus!
