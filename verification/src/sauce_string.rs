use vstd::prelude::*;

use crate::cp437::{cp437_array, cp437_byte, cp437_byte_exec, cp437_table};

verus! {

/// Appends one character to a string.
#[verifier::external_body]
fn push_char(s: &mut String, c: char)
    ensures
        final(s)@ == old(s)@.push(c),
{
    s.push(c);
}

/// A fixed width text field of a SAUCE record, stored as code page 437
/// bytes; `LEN` is the field width and `EMPTY` the padding byte.
#[derive(Clone, Debug)]
pub struct SauceString<const LEN: usize, const EMPTY: u8>(pub Vec<u8>);

/// The bytes that `from` makes of a text: its first `len` characters, each
/// as its code page 437 byte.
pub open spec fn encode_cp437(s: Seq<char>, len: int) -> Seq<u8> {
    let n = if s.len() < len { s.len() as int } else { len };
    Seq::new(n as nat, |i: int| cp437_byte(s[i]))
}

/// Length of `s` without trailing NUL and space bytes.
pub open spec fn trimmed_len(s: Seq<u8>) -> nat
    decreases s.len(),
{
    if s.len() == 0 {
        0
    } else if s.last() != 0 && s.last() != 32 {
        s.len()
    } else {
        trimmed_len(s.drop_last())
    }
}

pub proof fn lemma_trimmed_len_le(s: Seq<u8>)
    ensures
        trimmed_len(s) <= s.len(),
    decreases s.len(),
{
    if s.len() > 0 {
        lemma_trimmed_len_le(s.drop_last());
    }
}

/// How many bytes `read` takes: `len` bytes, or with NUL padding the bytes
/// before the first NUL among them.
pub open spec fn read_count(data: Seq<u8>, len: int, empty: u8) -> int
    decreases len,
{
    if len <= 0 {
        0
    } else {
        let prev = read_count(data, len - 1, empty);
        if prev < len - 1 {
            prev
        } else if empty == 0 && (len - 1 >= data.len() || data[len - 1] == 0) {
            len - 1
        } else {
            len
        }
    }
}

/// The length of the prefix of `data` up to its last byte among the first
/// `n` that differs from `empty`, or `len` when all of them equal it.
pub open spec fn last_non_empty(data: Seq<u8>, n: int, empty: u8, len: int) -> int
    decreases n,
{
    if n <= 0 {
        len
    } else if data[n - 1] != empty {
        n
    } else {
        last_non_empty(data, n - 1, empty, len)
    }
}

/// The bytes that `read` keeps of a field.
pub open spec fn read_field(data: Seq<u8>, len: int, empty: u8) -> Seq<u8> {
    let n = read_count(data, len, empty);
    let keep = last_non_empty(data, n, empty, len);
    if keep < len { data.subrange(0, keep) } else { data.subrange(0, n) }
}

/// The content after `read` appends a field to content `s`: the bytes up
/// to the end of the field (or its terminating 0) are appended, then the
/// whole content is cut at the field offset just after its last non-empty
/// byte, where the field has one.
pub open spec fn read_into(s: Seq<u8>, data: Seq<u8>, len: int, empty: u8) -> Seq<u8> {
    let n = read_count(data, len, empty);
    let keep = last_non_empty(data, n, empty, len);
    let all = s + data.subrange(0, n);
    if keep < len && keep < all.len() {
        all.subrange(0, keep)
    } else {
        all
    }
}

/// Appending a field to empty content keeps the field's bytes.
pub proof fn lemma_read_into_empty(data: Seq<u8>, len: int, empty: u8)
    requires
        0 <= len <= data.len(),
    ensures
        read_into(Seq::empty(), data, len, empty) == read_field(data, len, empty),
{
    let n = read_count(data, len, empty);
    lemma_read_count_bounds(data, len, empty);
    lemma_last_non_empty_bounds(data, n, empty, len);
    let keep = last_non_empty(data, n, empty, len);
    assert(Seq::<u8>::empty() + data.subrange(0, n) =~= data.subrange(0, n));
    if keep < len {
        assert(data.subrange(0, n).subrange(0, keep) =~= data.subrange(0, keep));
    }
}

/// The bytes that `append_to` writes for a field: its content padded with
/// `empty` up to the field width.
pub open spec fn padded(content: Seq<u8>, len: int, empty: u8) -> Seq<u8> {
    if content.len() < len {
        content + Seq::new((len - content.len()) as nat, |i: int| empty)
    } else {
        content
    }
}

pub proof fn lemma_read_count_bounds(data: Seq<u8>, len: int, empty: u8)
    requires
        len >= 0,
    ensures
        0 <= read_count(data, len, empty) <= len,
        empty != 0 ==> read_count(data, len, empty) == len,
        forall|k: int| 0 <= k < read_count(data, len, empty) && k < data.len() ==> (empty == 0 ==> data[k] != 0),
        read_count(data, len, empty) < len ==> empty == 0 && (read_count(data, len, empty) >= data.len()
            || data[read_count(data, len, empty)] == 0),
    decreases len,
{
    if len > 0 {
        lemma_read_count_bounds(data, len - 1, empty);
    }
}

pub proof fn lemma_last_non_empty_bounds(data: Seq<u8>, n: int, empty: u8, len: int)
    requires
        0 <= n <= len,
    ensures
        0 < last_non_empty(data, n, empty, len) <= n || last_non_empty(data, n, empty, len) == len,
    decreases n,
{
    if n > 0 {
        lemma_last_non_empty_bounds(data, n - 1, empty, len);
    }
}

impl<const LEN: usize, const EMPTY: u8> SauceString<LEN, EMPTY> {
    pub open spec fn view(&self) -> Seq<u8> {
        self.0@
    }

    pub fn new() -> (s: Self)
        ensures
            s.0@ == Seq::<u8>::empty(),
    {
        SauceString(Vec::new())
    }

    /// Encodes at most `LEN` characters of `text` in code page 437;
    /// characters without a code page 437 byte become `?`.
    pub fn from(text: &str) -> (s: Self)
        ensures
            s.0@ == encode_cp437(text@, LEN as int),
    {
        let table = cp437_array();
        let mut data: Vec<u8> = Vec::new();
        let ghost chars = text@;
        for ch in it: text.chars()
            invariant
                table@ == cp437_table(),
                table.len() == 256,
                it.seq() == chars,
                data@ == encode_cp437(chars.subrange(0, it.index() as int), LEN as int),
                data.len() <= LEN,
                data.len() == (if it.index() < LEN { it.index() as int } else { LEN as int }),
        {
            if data.len() < LEN {
                let b = cp437_byte_exec(&table, ch);
                data.push(b);
            }
            proof {
                assert(data@ =~= encode_cp437(chars.subrange(0, it.index() + 1), LEN as int));
            }
        }
        proof {
            assert(data@ =~= encode_cp437(chars, LEN as int));
        }
        SauceString(data)
    }

    /// The length of the content without trailing NUL and space bytes.
    pub fn len(&self) -> (r: usize)
        ensures
            r == trimmed_len(self.0@),
    {
        let mut len = self.0.len();
        proof {
            assert(self.0@.subrange(0, len as int) =~= self.0@);
        }
        let mut done = false;
        while len > 0 && !done
            invariant
                len <= self.0.len(),
                trimmed_len(self.0@.subrange(0, len as int)) == trimmed_len(self.0@),
                done ==> trimmed_len(self.0@.subrange(0, len as int)) == len,
            decreases len, (if done { 0int } else { 1int }),
        {
            let ch = self.0[len - 1];
            if ch != 0 && ch != 32 {
                done = true;
            } else {
                proof {
                    assert(self.0@.subrange(0, len as int).drop_last() =~= self.0@.subrange(0, len - 1));
                }
                len -= 1;
            }
        }
        len
    }

    pub fn max_len(&self) -> (r: usize)
        ensures
            r == LEN,
    {
        LEN
    }

    /// Reads the field from the start of `data` and appends it to the
    /// content; returns the field width.
    pub fn read(&mut self, data: &[u8]) -> (r: usize)
        requires
            if read_count(data@, LEN as int, EMPTY) < LEN {
                read_count(data@, LEN as int, EMPTY) < data.len()
            } else {
                LEN <= data.len()
            },
        ensures
            r == LEN,
            final(self).0@ == read_into(old(self).0@, data@, LEN as int, EMPTY),
            old(self).0@.len() == 0 ==> final(self).0@ == read_field(data@, LEN as int, EMPTY),
    {
        let ghost s0 = self.0@;
        let ghost n = read_count(data@, LEN as int, EMPTY);
        proof {
            lemma_read_count_bounds(data@, LEN as int, EMPTY);
        }
        let mut last: usize = LEN;
        let mut i: usize = 0;
        let mut stop = false;
        while i < LEN && !stop
            invariant
                i <= LEN,
                if n < LEN { n < data.len() } else { LEN <= data.len() },
                stop ==> i == n,
                n == read_count(data@, LEN as int, EMPTY),
                0 <= n <= LEN,
                read_count(data@, i as int, EMPTY) == i as int,
                i <= n,
                self.0@ == s0 + data@.subrange(0, i as int),
                last as int == last_non_empty(data@, i as int, EMPTY, LEN as int),
            decreases LEN - i, (if stop { 0int } else { 1int }),
        {
            proof {
                lemma_read_count_bounds(data@, i + 1, EMPTY);
                if (i as int) < data@.len() {
                    assert(read_count(data@, i + 1, EMPTY) == (if EMPTY == 0 && data@[i as int] == 0 {
                        i as int
                    } else {
                        i + 1
                    }));
                }
                lemma_read_count_mono(data@, i + 1, LEN as int, EMPTY);
            }
            if EMPTY == 0 && data[i] == 0 {
                stop = true;
            } else {
                if data[i] != EMPTY {
                    last = i + 1;
                }
                self.0.push(data[i]);
                i = i + 1;
            }
        }
        proof {
            assert(i == n);
            lemma_last_non_empty_bounds(data@, n, EMPTY, LEN as int);
        }
        if last < LEN {
            self.0.truncate(last);
        }
        proof {
            if s0.len() == 0 {
                assert(s0 + data@.subrange(0, n) =~= data@.subrange(0, n));
                if (last as int) < LEN {
                    assert(data@.subrange(0, n).subrange(0, last as int) =~= data@.subrange(0, last as int));
                }
            }
        }
        LEN
    }

    /// Appends the content padded with `EMPTY` to the field width.
    pub fn append_to(&self, vec: &mut Vec<u8>)
        requires
            old(vec).len() + padded(self.0@, LEN as int, EMPTY).len() <= usize::MAX,
        ensures
            final(vec)@ == old(vec)@ + padded(self.0@, LEN as int, EMPTY),
    {
        let ghost start = vec@;
        let mut i: usize = 0;
        while i < self.0.len()
            invariant
                i <= self.0.len(),
                start.len() + padded(self.0@, LEN as int, EMPTY).len() <= usize::MAX,
                vec@ == start + self.0@.subrange(0, i as int),
            decreases self.0.len() - i,
        {
            vec.push(self.0[i]);
            proof {
                assert(self.0@.subrange(0, i + 1) =~= self.0@.subrange(0, i as int).push(self.0@[i as int]));
            }
            i = i + 1;
        }
        assert(self.0@.subrange(0, self.0.len() as int) =~= self.0@);
        if self.0.len() < LEN {
            let pad = LEN - self.0.len();
            let ghost mid = vec@;
            let mut k: usize = 0;
            while k < pad
                invariant
                    k <= pad,
                    pad == LEN - self.0.len(),
                    mid == start + self.0@,
                    mid.len() + pad <= usize::MAX,
                    vec@ == mid + Seq::new(k as nat, |j: int| EMPTY),
                decreases pad - k,
            {
                vec.push(EMPTY);
                proof {
                    assert(vec@ =~= mid + Seq::new((k + 1) as nat, |j: int| EMPTY));
                }
                k = k + 1;
            }
            assert(vec@ =~= start + padded(self.0@, LEN as int, EMPTY));
        }
    }

    /// The content up to its trimmed length decoded from code page 437.
    pub fn to_string(&self) -> (s: String)
        ensures
            s@ == Seq::new(trimmed_len(self.0@), |i: int| cp437_table()[self.0@[i] as int]),
    {
        let table = cp437_array();
        let len = self.len();
        proof {
            lemma_trimmed_len_le(self.0@);
        }
        let mut s = String::new();
        let mut i: usize = 0;
        while i < len
            invariant
                i <= len,
                len <= self.0.len(),
                table@ == cp437_table(),
                table.len() == 256,
                s@ == Seq::new(i as nat, |k: int| cp437_table()[self.0@[k] as int]),
            decreases len - i,
        {
            let b = self.0[i];
            push_char(&mut s, table[b as usize]);
            proof {
                assert(s@ =~= Seq::new((i + 1) as nat, |k: int| cp437_table()[self.0@[k] as int]));
            }
            i = i + 1;
        }
        s
    }
}

pub proof fn lemma_read_count_mono(data: Seq<u8>, i: int, len: int, empty: u8)
    requires
        0 <= i <= len,
    ensures
        read_count(data, i, empty) < i ==> read_count(data, len, empty) == read_count(data, i, empty),
        read_count(data, len, empty) >= i ==> read_count(data, i, empty) == i,
        read_count(data, i, empty) == i ==> read_count(data, len, empty) >= i,
    decreases len - i,
{
    lemma_read_count_bounds(data, i, empty);
    if i < len {
        lemma_read_count_mono(data, i + 1, len, empty);
        lemma_read_count_bounds(data, i + 1, empty);
    }
}

/// The content without its trailing NUL and space bytes.
pub open spec fn trimmed(s: Seq<u8>) -> Seq<u8> {
    s.subrange(0, trimmed_len(s) as int)
}

proof fn lemma_trimmed_len_blank_tail(c: Seq<u8>, j: int)
    requires
        0 <= j <= c.len(),
        forall|k: int| j <= k < c.len() ==> c[k] == 32 || c[k] == 0,
    ensures
        trimmed_len(c) == trimmed_len(c.subrange(0, j)),
    decreases c.len(),
{
    if c.len() == j {
        assert(c.subrange(0, j) =~= c);
    } else {
        assert(c.drop_last().subrange(0, j) =~= c.subrange(0, j));
        lemma_trimmed_len_blank_tail(c.drop_last(), j);
    }
}

proof fn lemma_lne_same(a: Seq<u8>, c: Seq<u8>, n: int, empty: u8, len: int)
    requires
        0 <= n <= a.len(),
        n <= c.len(),
        forall|k: int| 0 <= k < n ==> a[k] == c[k],
    ensures
        last_non_empty(a, n, empty, len) == last_non_empty(c, n, empty, len),
    decreases n,
{
    if n > 0 {
        lemma_lne_same(a, c, n - 1, empty, len);
    }
}

proof fn lemma_lne_blank(a: Seq<u8>, m: int, n: int, empty: u8, len: int)
    requires
        0 <= m <= n <= a.len(),
        forall|k: int| m <= k < n ==> a[k] == empty,
    ensures
        last_non_empty(a, n, empty, len) == last_non_empty(a, m, empty, len),
    decreases n,
{
    if n > m {
        lemma_lne_blank(a, m, n - 1, empty, len);
    }
}

proof fn lemma_lne_shape(c: Seq<u8>, n: int, empty: u8, len: int)
    requires
        0 <= n <= c.len(),
    ensures
        ({
            let j = last_non_empty(c, n, empty, len);
            ||| (0 < j <= n && c[j - 1] != empty && forall|k: int| j <= k < n ==> c[k] == empty)
            ||| (j == len && forall|k: int| 0 <= k < n ==> c[k] == empty)
        }),
    decreases n,
{
    if n > 0 {
        lemma_lne_shape(c, n - 1, empty, len);
    }
}

proof fn lemma_read_count_prefix(data: Seq<u8>, n: int)
    requires
        0 <= n <= data.len(),
        forall|k: int| 0 <= k < n ==> data[k] != 0,
    ensures
        read_count(data, n, 0) == n,
    decreases n,
{
    if n > 0 {
        lemma_read_count_prefix(data, n - 1);
    }
}

/// A field written with space padding reads back with the same trimmed
/// content.
pub proof fn lemma_read_padded_spaces(c: Seq<u8>, rest: Seq<u8>, len: int)
    requires
        c.len() <= len,
    ensures
        trimmed(read_field(padded(c, len, 32) + rest, len, 32)) == trimmed(c),
{
    let d = padded(c, len, 32) + rest;
    lemma_read_count_bounds(d, len, 32);
    let n = read_count(d, len, 32);
    assert(n == len);
    lemma_lne_blank(d, c.len() as int, len, 32, len);
    lemma_lne_same(d, c, c.len() as int, 32, len);
    lemma_lne_shape(c, c.len() as int, 32, len);
    let j = last_non_empty(c, c.len() as int, 32, len);
    let r = read_field(d, len, 32);
    if j < len {
        assert(r =~= c.subrange(0, j));
        lemma_trimmed_len_blank_tail(c, j);
        lemma_trimmed_len_le(c.subrange(0, j));
        assert(trimmed(r) =~= trimmed(c));
    } else if j <= c.len() {
        assert(r =~= c);
    } else {
        assert(r =~= d.subrange(0, len));
        lemma_trimmed_len_blank_tail(d.subrange(0, len), 0);
        lemma_trimmed_len_blank_tail(c, 0);
        assert(trimmed_len(d.subrange(0, len).subrange(0, 0)) == 0);
        assert(trimmed_len(c.subrange(0, 0)) == 0);
        assert(trimmed(r) =~= trimmed(c));
    }
}

/// A field without NUL bytes written with NUL padding reads back as it
/// was.
pub proof fn lemma_read_padded_nul(c: Seq<u8>, rest: Seq<u8>, len: int)
    requires
        c.len() <= len,
        forall|k: int| 0 <= k < c.len() ==> c[k] != 0,
    ensures
        read_field(padded(c, len, 0) + rest, len, 0) == c,
{
    let d = padded(c, len, 0) + rest;
    lemma_read_count_prefix(d, c.len() as int);
    if c.len() < len {
        lemma_read_count_bounds(d, c.len() + 1int, 0);
        lemma_read_count_mono(d, c.len() + 1int, len, 0);
    }
    let n = read_count(d, len, 0);
    assert(n == c.len());
    if c.len() > 0 {
        assert(d[c.len() - 1] != 0);
        assert(last_non_empty(d, n, 0, len) == n);
    }
    assert(read_field(d, len, 0) =~= c);
}

} // verus!
