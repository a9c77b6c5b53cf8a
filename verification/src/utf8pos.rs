//! Correspondence between byte offsets in a string's UTF-8 encoding and
//! character positions in its `Seq<char>` view. The XML parser reports byte
//! offsets; the library works on characters, so every offset is translated
//! through [`PosTable`].
use vstd::prelude::*;
use vstd::utf8::*;

verus! {

/// The byte offset at which character `i` of `s` starts.
pub open spec fn byte_pos(s: Seq<char>, i: int) -> int {
    encode_utf8(s.take(i)).len() as int
}

/// Byte offset `k` falls on a character boundary of `s`.
pub open spec fn is_char_pos(s: Seq<char>, k: int) -> bool {
    exists|j: int| 0 <= j <= s.len() && byte_pos(s, j) == k
}

/// The character position whose byte offset is `k`.
pub open spec fn char_pos(s: Seq<char>, k: int) -> int {
    choose|j: int| 0 <= j <= s.len() && byte_pos(s, j) == k
}

/// Width in bytes of the UTF-8 encoding of `c`.
pub open spec fn char_width(c: char) -> int {
    let v = c as u32;
    if v <= 0x7F {
        1
    } else if v <= 0x7FF {
        2
    } else if v <= 0xFFFF {
        3
    } else {
        4
    }
}

pub proof fn lemma_encode_concat(a: Seq<char>, b: Seq<char>)
    ensures
        encode_utf8(a + b) == encode_utf8(a) + encode_utf8(b),
    decreases a.len(),
{
    if a.len() == 0 {
        assert(a + b =~= b);
        assert(encode_utf8(a) + encode_utf8(b) =~= encode_utf8(b));
    } else {
        assert((a + b).drop_first() =~= a.drop_first() + b);
        assert((a + b)[0] == a[0]);
        lemma_encode_concat(a.drop_first(), b);
        assert(encode_utf8(a + b) =~= encode_scalar(a[0] as u32) + encode_utf8(a.drop_first())
            + encode_utf8(b));
    }
}

pub proof fn lemma_scalar_width(c: char)
    ensures
        encode_scalar(c as u32).len() == char_width(c),
{
    broadcast use char_is_scalar;

    assert(is_scalar(c as u32));
}

pub proof fn lemma_encode_single(c: char)
    ensures
        encode_utf8(seq![c]).len() == char_width(c),
{
    assert(seq![c].drop_first() =~= Seq::<char>::empty());
    assert(encode_utf8(Seq::<char>::empty()) =~= Seq::<u8>::empty());
    lemma_scalar_width(c);
    assert(encode_utf8(seq![c]) =~= encode_scalar(c as u32) + encode_utf8(Seq::<char>::empty()));
}

pub proof fn lemma_byte_pos_step(s: Seq<char>, i: int)
    requires
        0 <= i < s.len(),
    ensures
        byte_pos(s, i + 1) == byte_pos(s, i) + char_width(s[i]),
{
    assert(s.take(i + 1) =~= s.take(i) + seq![s[i]]);
    lemma_encode_concat(s.take(i), seq![s[i]]);
    lemma_encode_single(s[i]);
}

pub proof fn lemma_byte_pos_zero(s: Seq<char>)
    ensures
        byte_pos(s, 0) == 0,
{
    assert(s.take(0) =~= Seq::<char>::empty());
}

pub proof fn lemma_byte_pos_full(s: Seq<char>)
    ensures
        byte_pos(s, s.len() as int) == encode_utf8(s).len(),
{
    assert(s.take(s.len() as int) =~= s);
}

/// Character starts are strictly increasing byte offsets.
pub proof fn lemma_byte_pos_mono(s: Seq<char>, i: int, j: int)
    requires
        0 <= i < j <= s.len(),
    ensures
        byte_pos(s, i) < byte_pos(s, j),
    decreases j - i,
{
    lemma_byte_pos_step(s, j - 1);
    if i < j - 1 {
        lemma_byte_pos_mono(s, i, j - 1);
    }
}

pub proof fn lemma_char_pos_unique(s: Seq<char>, k: int, i: int)
    requires
        0 <= i <= s.len(),
        byte_pos(s, i) == k,
    ensures
        is_char_pos(s, k),
        char_pos(s, k) == i,
{
    assert(is_char_pos(s, k));
    let j = char_pos(s, k);
    if j < i {
        lemma_byte_pos_mono(s, j, i);
    } else if i < j {
        lemma_byte_pos_mono(s, i, j);
    }
}

pub fn char_width_exec(c: char) -> (w: usize)
    ensures
        w == char_width(c),
{
    let v = c as u32;
    if v <= 0x7F {
        1
    } else if v <= 0x7FF {
        2
    } else if v <= 0xFFFF {
        3
    } else {
        4
    }
}

/// For every byte offset of a string's encoding, the character that starts
/// there (or a sentinel when the offset falls inside a character).
pub struct PosTable {
    pub table: Vec<usize>,
    pub nbytes: usize,
    pub nchars: usize,
}

impl PosTable {
    pub open spec fn wf(&self, s: Seq<char>) -> bool {
        &&& self.nchars == s.len()
        &&& self.nbytes == byte_pos(s, s.len() as int)
        &&& self.table@.len() == self.nbytes
        &&& forall|k: int|
            0 <= k < self.nbytes && #[trigger] self.table@[k] != usize::MAX ==> self.table@[k]
                < s.len() && byte_pos(s, self.table@[k] as int) == k
        &&& forall|j: int|
            0 <= j < s.len() ==> #[trigger] self.table@[byte_pos(s, j)] == j
    }

    /// Build the table for `s`, whose encoding is `nbytes` long.
    pub fn new(s: &Vec<char>, nbytes: usize) -> (t: PosTable)
        requires
            nbytes == byte_pos(s@, s@.len() as int),
        ensures
            t.wf(s@),
    {
        let mut table: Vec<usize> = Vec::new();
        while table.len() < nbytes
            invariant
                table@.len() <= nbytes,
                forall|k: int| 0 <= k < table@.len() ==> #[trigger] table@[k] == usize::MAX,
            decreases nbytes - table@.len(),
        {
            table.push(usize::MAX);
        }
        let mut i: usize = 0;
        let mut pos: usize = 0;
        proof {
            lemma_byte_pos_zero(s@);
        }
        while i < s.len()
            invariant
                i <= s.len(),
                table@.len() == nbytes,
                nbytes == byte_pos(s@, s@.len() as int),
                pos == byte_pos(s@, i as int),
                forall|k: int|
                    0 <= k < nbytes && #[trigger] table@[k] != usize::MAX ==> table@[k] < i
                        && byte_pos(s@, table@[k] as int) == k,
                forall|j: int| 0 <= j < i ==> #[trigger] table@[byte_pos(s@, j)] == j,
            decreases s.len() - i,
        {
            proof {
                lemma_byte_pos_mono(s@, i as int, s@.len() as int);
                lemma_byte_pos_step(s@, i as int);
                if i + 1 < s.len() {
                    lemma_byte_pos_mono(s@, i + 1, s@.len() as int);
                }
                assert forall|j: int| 0 <= j < i implies byte_pos(s@, j) < pos by {
                    lemma_byte_pos_mono(s@, j, i as int);
                }
            }
            table.set(pos, i);
            let w = char_width_exec(s[i]);
            pos = pos + w;
            i = i + 1;
            proof {
                assert forall|j: int| 0 <= j < i implies #[trigger] table@[byte_pos(s@, j)] == j by {
                    if j < i - 1 {
                        lemma_byte_pos_mono(s@, j, i - 1);
                    }
                }
            }
        }
        PosTable { table, nbytes, nchars: s.len() }
    }

    /// The character position at byte offset `k`, if `k` is a character boundary.
    pub fn lookup(&self, k: usize, Ghost(s): Ghost<Seq<char>>) -> (r: Option<usize>)
        requires
            self.wf(s),
        ensures
            r matches Some(i) ==> is_char_pos(s, k as int) && char_pos(s, k as int) == i && i
                <= s.len(),
            r is None ==> !is_char_pos(s, k as int),
    {
        if k == self.nbytes {
            proof {
                lemma_char_pos_unique(s, k as int, s.len() as int);
            }
            Some(self.nchars)
        } else if k < self.nbytes {
            let v = self.table[k];
            if v == usize::MAX {
                proof {
                    if is_char_pos(s, k as int) {
                        let j = choose|j: int| 0 <= j <= s.len() && byte_pos(s, j) == k;
                        if j < s.len() {
                            assert(self.table@[byte_pos(s, j)] == j);
                        }
                    }
                }
                None
            } else {
                proof {
                    lemma_char_pos_unique(s, k as int, v as int);
                }
                Some(v)
            }
        } else {
            proof {
                if is_char_pos(s, k as int) {
                    let j = choose|j: int| 0 <= j <= s.len() && byte_pos(s, j) == k;
                    if j < s.len() {
                        lemma_byte_pos_mono(s, j, s.len() as int);
                    }
                }
            }
            None
        }
    }
}

} // verus!
