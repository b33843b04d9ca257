//! The index line: `<64 hex digits>|<decimal size>|<store-relative path>`.
use vstd::prelude::*;
use vstd::string::*;
use crate::error::FileError;
use crate::record::{FileHash, ProcessedFile, HASH_LEN};
use crate::text::{
    decimal, decimal_value, digit_char, hex_digit, hex_value, index_from, is_decimal_digit,
    is_hex_char, join_path, join_path_str, lemma_decimal_digits, lemma_hex_digit, push_char,
    push_decimal, strip_base, dir_prefix,
};

verus! {

/// Two lower-case hex digits per byte.
pub open spec fn hex_of(h: Seq<u8>) -> Seq<char>
    decreases h.len(),
{
    if h.len() == 0 {
        Seq::empty()
    } else {
        hex_of(h.drop_last()) + seq![hex_digit((h.last() / 16) as nat), hex_digit((h.last() % 16) as nat)]
    }
}

/// The index line of a digest, a size and a store-relative path.
pub open spec fn encode_line(h: Seq<u8>, size: u64, rel: Seq<char>) -> Seq<char> {
    hex_of(h) + seq!['|'] + decimal(size as nat) + seq!['|'] + rel
}

/// Where the size field of a line ends.
pub open spec fn size_end(line: Seq<char>) -> int {
    index_from(line, '|', 65)
}

/// A line holds 64 hex digits, a `|`, a run of decimal digits whose value
/// fits in 64 bits, another `|`, and the path.
pub open spec fn well_formed_line(line: Seq<char>) -> bool {
    &&& line.len() > 65
    &&& forall|i: int| 0 <= i < 64 ==> is_hex_char(#[trigger] line[i])
    &&& line[64] == '|'
    &&& size_end(line) > 65
    &&& forall|i: int| 65 <= i < size_end(line) ==> is_decimal_digit(#[trigger] line[i])
    &&& decimal_value(line.subrange(65, size_end(line))) <= u64::MAX
}

/// The bytes written by 64 hex digits.
pub open spec fn hex_bytes(s: Seq<char>) -> Seq<u8> {
    Seq::new(32, |i: int| (hex_value(s[2 * i]) * 16 + hex_value(s[2 * i + 1])) as u8)
}

/// What a line decodes to under the store root `base`: digest, size and
/// absolute path.
pub open spec fn decode_line(line: Seq<char>, base: Seq<char>) -> Option<(Seq<u8>, u64, Seq<char>)> {
    if well_formed_line(line) {
        Some((
            hex_bytes(line.subrange(0, 64)),
            decimal_value(line.subrange(65, size_end(line))) as u64,
            join_path(base, line.subrange(size_end(line) + 1, line.len() as int)),
        ))
    } else {
        None
    }
}

/// The digest, size and path of a Stored record.
pub open spec fn stored_fields(f: ProcessedFile) -> Option<(Seq<u8>, u64, Seq<char>)> {
    match f {
        ProcessedFile::Stored { hash, size, path } => Some((hash@, size, path@)),
        _ => None,
    }
}

/// The digest, the size and the path of the kept copy of a Stored or
/// NewStored record.
pub open spec fn kept_fields(f: ProcessedFile) -> (Seq<u8>, u64, Seq<char>) {
    match f {
        ProcessedFile::Stored { hash, size, path } => (hash@, size, path@),
        ProcessedFile::NewStored { hash, size, stored_path, .. } => (hash@, size, stored_path@),
        _ => (Seq::empty(), 0, Seq::empty()),
    }
}

/// The index line of a Stored or NewStored record whose kept copy lies
/// under `base`.
pub open spec fn encoded(f: ProcessedFile, base: Seq<char>) -> Seq<char> {
    let (h, s, p) = kept_fields(f);
    encode_line(h, s, strip_base(p, base)->0)
}

pub open spec fn encodable(f: ProcessedFile, base: Seq<char>) -> bool {
    f.is_canonical() && strip_base(kept_fields(f).2, base) is Some
}

pub proof fn lemma_hex_of(h: Seq<u8>)
    ensures
        hex_of(h).len() == 2 * h.len(),
        forall|i: int| 0 <= i < h.len() ==> #[trigger] hex_of(h)[2 * i] == hex_digit((h[i] / 16) as nat)
            && hex_of(h)[2 * i + 1] == hex_digit((h[i] % 16) as nat),
    decreases h.len(),
{
    if h.len() > 0 {
        let p = h.drop_last();
        lemma_hex_of(p);
        let tail = seq![hex_digit((h.last() / 16) as nat), hex_digit((h.last() % 16) as nat)];
        assert(hex_of(h) == hex_of(p) + tail);
        assert forall|i: int| 0 <= i < h.len() implies #[trigger] hex_of(h)[2 * i] == hex_digit(
            (h[i] / 16) as nat,
        ) && hex_of(h)[2 * i + 1] == hex_digit((h[i] % 16) as nat) by {
            if i < p.len() {
                assert(h[i] == p[i]);
                assert(hex_of(h)[2 * i] == hex_of(p)[2 * i]);
                assert(hex_of(h)[2 * i + 1] == hex_of(p)[2 * i + 1]);
            } else {
                assert(hex_of(h)[2 * i] == tail[0]);
                assert(hex_of(h)[2 * i + 1] == tail[1]);
            }
        }
    }
}

pub proof fn lemma_hex_bytes(h: Seq<u8>)
    requires
        h.len() == 32,
    ensures
        hex_bytes(hex_of(h)) == h,
        forall|i: int| 0 <= i < 64 ==> is_hex_char(#[trigger] hex_of(h)[i]) && hex_of(h)[i] != '|',
{
    lemma_hex_of(h);
    assert forall|i: int| 0 <= i < 32 implies #[trigger] hex_bytes(hex_of(h))[i] == h[i] by {
        lemma_hex_digit((h[i] / 16) as nat);
        lemma_hex_digit((h[i] % 16) as nat);
    }
    assert(hex_bytes(hex_of(h)) =~= h);
    assert forall|i: int| 0 <= i < 64 implies is_hex_char(#[trigger] hex_of(h)[i]) && hex_of(h)[i] != '|' by {
        let k = i / 2;
        if i % 2 == 0 {
            assert(i == 2 * k);
            lemma_hex_digit((h[k] / 16) as nat);
        } else {
            assert(i == 2 * k + 1);
            lemma_hex_digit((h[k] % 16) as nat);
        }
    }
}

proof fn lemma_index_from_skips(s: Seq<char>, from: int, to: int)
    requires
        0 <= from <= to < s.len(),
        s[to] == '|',
        forall|i: int| from <= i < to ==> s[i] != '|',
    ensures
        index_from(s, '|', from) == to,
    decreases to - from,
{
    if from < to {
        lemma_index_from_skips(s, from + 1, to);
    }
}

/// Decoding the line of a record gives back its digest, size and path.
pub proof fn lemma_codec_round_trip(h: Seq<u8>, size: u64, path: Seq<char>, root: Seq<char>)
    requires
        h.len() == 32,
        strip_base(path, root) is Some,
    ensures
        decode_line(encode_line(h, size, strip_base(path, root)->0), root) == Some((h, size, path)),
{
    let rel = strip_base(path, root)->0;
    let line = encode_line(h, size, rel);
    let d = decimal(size as nat);
    lemma_hex_bytes(h);
    lemma_hex_of(h);
    lemma_decimal_digits(size as nat);
    let e: int = 65 + d.len() as int;
    assert forall|i: int| 65 <= i < e implies line[i] == d[i - 65] by {}
    assert forall|i: int| 65 <= i < e implies line[i] != '|' && is_decimal_digit(#[trigger] line[i]) by {
        assert(is_decimal_digit(d[i - 65]));
    }
    lemma_index_from_skips(line, 65, e);
    assert(line.subrange(0, 64) =~= hex_of(h));
    assert(line.subrange(65, e) =~= d);
    assert(line.subrange(e + 1, line.len() as int) =~= rel);
    assert(dir_prefix(root) + rel =~= path);
}

fn hex_char_value(c: char) -> (r: u8)
    requires
        is_hex_char(c),
    ensures
        r as nat == hex_value(c),
        r < 16,
{
    if '0' <= c && c <= '9' {
        (c as u32 - '0' as u32) as u8
    } else if 'a' <= c && c <= 'f' {
        (c as u32 - 'a' as u32 + 10) as u8
    } else {
        (c as u32 - 'A' as u32 + 10) as u8
    }
}

fn is_hex_digit_char(c: char) -> (r: bool)
    ensures
        r == is_hex_char(c),
{
    ('0' <= c && c <= '9') || ('a' <= c && c <= 'f') || ('A' <= c && c <= 'F')
}

proof fn lemma_index_from_skip(s: Seq<char>, from: int, to: int)
    requires
        0 <= from <= to,
        forall|i: int| from <= i < to ==> s[i] != '|',
    ensures
        index_from(s, '|', from) == index_from(s, '|', to),
        index_from(s, '|', to) == -1 || to <= index_from(s, '|', to) < s.len(),
    decreases to - from,
{
    if from < to && from < s.len() {
        lemma_index_from_skip(s, from + 1, to);
    } else {
        lemma_index_from_range(s, to);
    }
}

proof fn lemma_index_from_range(s: Seq<char>, from: int)
    ensures
        index_from(s, '|', from) == -1 || (from <= index_from(s, '|', from) < s.len()
            && s[index_from(s, '|', from)] == '|'),
    decreases s.len() - from,
{
    if 0 <= from < s.len() && s[from] != '|' {
        lemma_index_from_range(s, from + 1);
    }
}

proof fn lemma_decimal_value_grows(s: Seq<char>, c: char)
    requires
        is_decimal_digit(c),
    ensures
        decimal_value(s.push(c)) == decimal_value(s) * 10 + hex_value(c),
{
    assert(s.push(c).drop_last() =~= s);
}

proof fn lemma_decimal_prefix(s: Seq<char>, k: int)
    requires
        0 <= k <= s.len(),
    ensures
        decimal_value(s.subrange(0, k)) <= decimal_value(s),
    decreases s.len() - k,
{
    if k < s.len() {
        lemma_decimal_prefix(s, k + 1);
        assert(s.subrange(0, k + 1).drop_last() =~= s.subrange(0, k));
    } else {
        assert(s.subrange(0, k) =~= s);
    }
}

impl ProcessedFile {
    /// Reads one index line as a Stored record under the store root
    /// `base_path`; a malformed line is a corrupt index.
    pub fn decode_stored_file(text: &str, base_path: &str) -> (r: Result<ProcessedFile, FileError>)
        ensures
            match r {
                Ok(f) => decode_line(text@, base_path@) == stored_fields(f) && f is Stored,
                Err(e) => e == FileError::CorruptIndex && decode_line(text@, base_path@) is None,
            },
    {
        let ghost line = text@;
        let n = text.unicode_len();
        if n <= 65 {
            return Err(FileError::CorruptIndex);
        }
        let mut i: usize = 0;
        while i < 64
            invariant
                i <= 64,
                n == line.len(),
                n > 65,
                line == text@,
                forall|j: int| 0 <= j < i ==> is_hex_char(#[trigger] line[j]),
            decreases 64 - i,
        {
            if !is_hex_digit_char(text.get_char(i)) {
                return Err(FileError::CorruptIndex);
            }
            i = i + 1;
        }
        if text.get_char(64) != '|' {
            return Err(FileError::CorruptIndex);
        }
        let mut j: usize = 65;
        let mut size: u64 = 0;
        while j < n && text.get_char(j) != '|'
            invariant
                65 <= j <= n,
                n == line.len(),
                n > 65,
                line[64] == '|',
                forall|m: int| 0 <= m < 64 ==> is_hex_char(#[trigger] line[m]),
                line == text@,
                forall|k: int| 65 <= k < j ==> line[k] != '|' && is_decimal_digit(#[trigger] line[k]),
                size as nat == decimal_value(line.subrange(65, j as int)),
            decreases n - j,
        {
            let c = text.get_char(j);
            if !('0' <= c && c <= '9') {
                proof {
                    lemma_index_from_skip(line, 65, j + 1);
                    if size_end(line) > 65 {
                        assert(65 <= j < size_end(line));
                        assert(!is_decimal_digit(line[j as int]));
                    }
                }
                return Err(FileError::CorruptIndex);
            }
            let d = (c as u32 - '0' as u32) as u64;
            proof {
                lemma_decimal_value_grows(line.subrange(65, j as int), c);
                assert(line.subrange(65, j + 1) =~= line.subrange(65, j as int).push(c));
            }
            if size > (u64::MAX - d) / 10 {
                proof {
                    assert(size * 10 + d > u64::MAX) by (nonlinear_arith)
                        requires size > (u64::MAX - d) / 10, d <= 9;
                    lemma_index_from_skip(line, 65, j + 1);
                    if size_end(line) > 65 {
                        let field = line.subrange(65, size_end(line));
                        lemma_decimal_prefix(field, j + 1 - 65);
                        assert(field.subrange(0, j + 1 - 65) =~= line.subrange(65, j + 1));
                    }
                }
                return Err(FileError::CorruptIndex);
            }
            assert(size * 10 + d <= u64::MAX) by (nonlinear_arith)
                requires size <= (u64::MAX - d) / 10, d <= 9;
            size = size * 10 + d;
            j = j + 1;
        }
        proof { lemma_index_from_skip(line, 65, j as int); }
        if j == n || j == 65 {
            return Err(FileError::CorruptIndex);
        }
        assert(size_end(line) == j as int);
        let mut hash: FileHash = [0u8; 32];
        let mut k: usize = 0;
        while k < HASH_LEN
            invariant
                k <= 32,
                n == line.len(),
                n > 65,
                line == text@,
                forall|m: int| 0 <= m < 64 ==> is_hex_char(#[trigger] line[m]),
                forall|m: int| 0 <= m < k ==> hash@[m] == hex_bytes(line.subrange(0, 64))[m],
            decreases 32 - k,
        {
            let hi = hex_char_value(text.get_char(2 * k));
            let lo = hex_char_value(text.get_char(2 * k + 1));
            hash[k] = hi * 16 + lo;
            assert(line.subrange(0, 64)[2 * k as int] == line[2 * k as int]);
            assert(line.subrange(0, 64)[2 * k + 1] == line[2 * k + 1]);
            k = k + 1;
        }
        assert(hash@ =~= hex_bytes(line.subrange(0, 64)));
        let rel = text.substring_char(j + 1, n);
        let path = join_path_str(base_path, rel);
        Ok(ProcessedFile::Stored { hash, size, path })
    }

    /// The index line of a Stored record, or of the destination of a
    /// NewStored record, relative to the store root `base_path`.
    pub fn encode_stored_file(&self, base_path: &str) -> (r: String)
        requires
            encodable(*self, base_path@),
        ensures
            r@ == encoded(*self, base_path@),
    {
        let (hash, size, path) = match self {
            ProcessedFile::Stored { hash, size, path } => (hash, size, path),
            ProcessedFile::NewStored { hash, size, stored_path, .. } => (hash, size, stored_path),
            _ => {
                assert(false);
                return String::new();
            }
        };
        let mut text = String::new();
        let mut i: usize = 0;
        while i < HASH_LEN
            invariant
                i <= 32,
                text@ == hex_of(hash@.subrange(0, i as int)),
            decreases 32 - i,
        {
            let b = hash[i];
            push_char(&mut text, digit_char((b / 16) as u64));
            push_char(&mut text, digit_char((b % 16) as u64));
            assert(hash@.subrange(0, i + 1).drop_last() =~= hash@.subrange(0, i as int));
            i = i + 1;
        }
        assert(hash@.subrange(0, 32) =~= hash@);
        push_char(&mut text, '|');
        push_decimal(&mut text, *size);
        push_char(&mut text, '|');
        let n = base_path.unicode_len();
        let m = path.as_str().unicode_len();
        assert(dir_prefix(base_path@).len() <= m);
        let start: usize = if n == 0 || base_path.get_char(n - 1) == '/' { n } else { n + 1 };
        assert(start as int == dir_prefix(base_path@).len());
        let rel = path.as_str().substring_char(start, m);
        text.append(rel);
        assert(text@ =~= encoded(*self, base_path@));
        text
    }
}

} // verus!

verus! {

/// A Stored record under the store root decodes from its own index line
/// with the same digest, size and path.
pub proof fn lemma_record_round_trip(f: ProcessedFile, root: Seq<char>)
    requires
        f is Stored,
        encodable(f, root),
    ensures
        decode_line(encoded(f, root), root) == stored_fields(f),
{
    let (h, s, p) = kept_fields(f);
    assert(h.len() == 32);
    lemma_codec_round_trip(h, s, p, root);
}

} // verus!
