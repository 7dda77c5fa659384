use vstd::prelude::*;
use vstd::string::StrSliceExecFns;
use libccanvas::bindings::Colour;

verus! {

/// Relies on libccanvas::bindings::Colour as a plain value type: a colour marker carries one
/// through unchanged and nothing here looks inside it.
#[verifier::external_type_specification]
#[verifier::external_body]
pub struct ExColour(Colour);

/// One styled run: a zero-width colour marker or a piece of text.
pub enum Chunk {
    Colour { value: Colour },
    Text { value: String },
}

/// What a chunk stands for: its colour, or its text as characters.
pub ghost enum ChunkModel {
    Colour(Colour),
    Text(Seq<char>),
}

impl View for Chunk {
    type V = ChunkModel;

    open spec fn view(&self) -> ChunkModel {
        match self {
            Chunk::Colour { value } => ChunkModel::Colour(*value),
            Chunk::Text { value } => ChunkModel::Text(value@),
        }
    }
}

/// The number of UTF-8 code units that encode `c`.
pub open spec fn char_width(c: char) -> nat {
    let v = c as u32;
    if v <= 0x7F {
        1
    } else if v <= 0x7FF {
        2
    } else if v <= 0xFFFF {
        3
    } else {
        4
    }
}

/// The number of UTF-8 code units that encode `s`.
pub open spec fn utf8_len(s: Seq<char>) -> nat
    decreases s.len(),
{
    if s.len() == 0 {
        0
    } else {
        char_width(s[0]) + utf8_len(s.drop_first())
    }
}

/// How many leading characters of `s` fit, whole, in `n` code units.
pub open spec fn fit_count(s: Seq<char>, n: nat) -> nat
    decreases s.len(),
{
    if s.len() == 0 || char_width(s[0]) > n {
        0
    } else {
        1 + fit_count(s.drop_first(), (n - char_width(s[0])) as nat)
    }
}

/// How many leading characters of `s` begin within its first `n` code units.
pub open spec fn start_count(s: Seq<char>, n: nat) -> nat
    decreases s.len(),
{
    if s.len() == 0 || n == 0 {
        0
    } else {
        1 + start_count(s.drop_first(), if n > char_width(s[0]) { (n - char_width(s[0])) as nat } else { 0 })
    }
}

/// Display width of a chunk: nothing for a colour, its UTF-8 code units for a text.
pub open spec fn chunk_len(c: ChunkModel) -> nat {
    match c {
        ChunkModel::Colour(_) => 0,
        ChunkModel::Text(s) => utf8_len(s),
    }
}

/// The chunk with its text cut to at most `n` code units, at a character boundary.
pub open spec fn chunk_truncate(c: ChunkModel, n: nat) -> ChunkModel {
    match c {
        ChunkModel::Colour(_) => c,
        ChunkModel::Text(s) => ChunkModel::Text(s.take(fit_count(s, n) as int)),
    }
}

/// The chunk with its first `n` code units dropped; a character that begins among them goes
/// whole.
pub open spec fn chunk_skip(c: ChunkModel, n: nat) -> ChunkModel {
    match c {
        ChunkModel::Colour(_) => c,
        ChunkModel::Text(s) => ChunkModel::Text(s.skip(start_count(s, n) as int)),
    }
}

proof fn lemma_fit_count_bound(s: Seq<char>, n: nat)
    ensures
        fit_count(s, n) <= s.len(),
    decreases s.len(),
{
    if s.len() > 0 && char_width(s[0]) <= n {
        lemma_fit_count_bound(s.drop_first(), (n - char_width(s[0])) as nat);
    }
}

proof fn lemma_start_count_bound(s: Seq<char>, n: nat)
    ensures
        start_count(s, n) <= s.len(),
        s.len() > 0 && n > 0 ==> start_count(s, n) >= 1,
    decreases s.len(),
{
    if s.len() > 0 && n > 0 {
        lemma_start_count_bound(
            s.drop_first(),
            if n > char_width(s[0]) { (n - char_width(s[0])) as nat } else { 0 },
        );
    }
}

/// The code units of a text split at character `k` add up to those of the whole, and each
/// character takes at least one.
pub proof fn lemma_utf8_len_split(s: Seq<char>, k: int)
    requires
        0 <= k <= s.len(),
    ensures
        utf8_len(s) == utf8_len(s.take(k)) + utf8_len(s.skip(k)),
        utf8_len(s.take(k)) >= k,
    decreases k,
{
    if k == 0 {
        assert(s.skip(0) =~= s);
        assert(s.take(0).len() == 0);
    } else {
        lemma_utf8_len_split(s.drop_first(), k - 1);
        assert(s.take(k).drop_first() =~= s.drop_first().take(k - 1));
        assert(s.drop_first().skip(k - 1) =~= s.skip(k));
    }
}

/// Dropping a positive number of code units from a non-empty chunk makes it narrower.
pub proof fn lemma_skip_narrows(c: ChunkModel, n: nat)
    requires
        n > 0,
        chunk_len(c) > 0,
    ensures
        chunk_len(chunk_skip(c, n)) < chunk_len(c),
{
    if let ChunkModel::Text(s) = c {
        lemma_start_count_bound(s, n);
        let k = start_count(s, n) as int;
        lemma_utf8_len_split(s, k);
    }
}

/// The code units that encode a text are what `str::len` counts.
proof fn lemma_utf8_len_encoded(s: Seq<char>)
    ensures
        utf8_len(s) == vstd::utf8::encode_utf8(s).len(),
    decreases s.len(),
{
    if s.len() > 0 {
        vstd::utf8::char_is_scalar(s[0]);
        lemma_utf8_len_encoded(s.drop_first());
    }
}

/// The code units of one character, as `char_width` gives them.
fn width_of(c: char) -> (r: usize)
    ensures
        r == char_width(c),
{
    let v = c as u32;
    if v <= 0x7F {
        1
    } else if v <= 0x7FF {
        2
    } else if v <= 0xFFFF {
        3
    } else {
        4
    }
}

/// `fit_count` of a text, counted character by character.
fn count_fitting(s: &str, n: usize) -> (r: usize)
    ensures
        r == fit_count(s@, n as nat),
{
    let total = s.unicode_len();
    let mut i: usize = 0;
    let mut left: usize = n;
    assert(s@.skip(0) =~= s@);
    while i < total
        invariant
            total == s@.len(),
            i <= total,
            left <= n,
            fit_count(s@, n as nat) == i + fit_count(s@.skip(i as int), left as nat),
        decreases total - i,
    {
        let w = width_of(s.get_char(i));
        assert(s@.skip(i as int)[0] == s@[i as int]);
        assert(s@.skip(i as int).drop_first() =~= s@.skip(i as int + 1));
        if w > left {
            return i;
        }
        left = left - w;
        i = i + 1;
    }
    assert(s@.skip(i as int).len() == 0);
    i
}

/// `start_count` of a text, counted character by character.
fn count_starting(s: &str, n: usize) -> (r: usize)
    ensures
        r == start_count(s@, n as nat),
{
    let total = s.unicode_len();
    let mut i: usize = 0;
    let mut left: usize = n;
    assert(s@.skip(0) =~= s@);
    while i < total
        invariant
            total == s@.len(),
            i <= total,
            left <= n,
            start_count(s@, n as nat) == i + start_count(s@.skip(i as int), left as nat),
        decreases total - i,
    {
        assert(s@.skip(i as int)[0] == s@[i as int]);
        assert(s@.skip(i as int).drop_first() =~= s@.skip(i as int + 1));
        if left == 0 {
            return i;
        }
        let w = width_of(s.get_char(i));
        left = if left > w { left - w } else { 0 };
        i = i + 1;
    }
    assert(s@.skip(i as int).len() == 0);
    i
}

impl Chunk {
    /// A copy of the chunk.
    pub fn duplicate(&self) -> (r: Chunk)
        ensures
            r@ == self@,
    {
        match self {
            Chunk::Colour { value } => Chunk::Colour { value: *value },
            Chunk::Text { value } => Chunk::Text { value: value.clone() },
        }
    }

    /// Whether the chunk is a colour marker.
    pub fn is_colour(&self) -> (r: bool)
        ensures
            r == self@ is Colour,
    {
        match self {
            Chunk::Colour { .. } => true,
            Chunk::Text { .. } => false,
        }
    }

    /// Display width: zero for a colour, the UTF-8 code units of a text.
    pub fn len(&self) -> (r: usize)
        ensures
            r == chunk_len(self@),
    {
        match self {
            Chunk::Colour { .. } => 0,
            Chunk::Text { value } => {
                proof { lemma_utf8_len_encoded(value@); }
                let bytes = value.as_str().as_bytes();
                bytes.len()
            },
        }
    }

    /// The chunk with its text cut to at most `length` code units, at the last character
    /// boundary that fits; a colour stays as it is.
    pub fn truncate(&self, length: u32) -> (r: Chunk)
        ensures
            r@ == chunk_truncate(self@, length as nat),
    {
        match self {
            Chunk::Colour { value } => Chunk::Colour { value: *value },
            Chunk::Text { value } => {
                let k = count_fitting(value.as_str(), length as usize);
                proof { lemma_fit_count_bound(value@, length as nat); }
                let cut = value.as_str().substring_char(0, k);
                Chunk::Text { value: cut.to_string() }
            },
        }
    }

    /// The chunk without the first `length` code units of its text, a character that begins
    /// among them included; a colour stays as it is.
    pub fn skip(&self, length: u32) -> (r: Chunk)
        ensures
            r@ == chunk_skip(self@, length as nat),
    {
        match self {
            Chunk::Colour { value } => Chunk::Colour { value: *value },
            Chunk::Text { value } => {
                let n = value.as_str().unicode_len();
                let k = count_starting(value.as_str(), length as usize);
                proof { lemma_start_count_bound(value@, length as nat); }
                let rest = value.as_str().substring_char(k, n);
                Chunk::Text { value: rest.to_string() }
            },
        }
    }
}

} // verus!
