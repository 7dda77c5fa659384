use vstd::prelude::*;
use vstd::string::{StringExecFns, StrSliceExecFns};
use crate::chunk::{Chunk, ChunkModel, chunk_len, chunk_truncate};

verus! {

/// One logical record: text runs interleaved with colour markers.
pub struct Entry(pub Vec<Chunk>);

/// The models of a sequence of chunks.
pub open spec fn models(v: Seq<Chunk>) -> Seq<ChunkModel> {
    v.map_values(|c: Chunk| c@)
}

/// The models of a sequence of entries, one line each.
pub open spec fn lines_view(v: Seq<Entry>) -> Seq<Seq<ChunkModel>> {
    v.map_values(|e: Entry| e@)
}

/// The model of a pushed sequence is the model with the pushed chunk's model at the end.
proof fn lemma_models_push(v: Seq<Chunk>, c: Chunk)
    ensures
        models(v.push(c)) == models(v).push(c@),
{
    assert(models(v.push(c)) =~= models(v).push(c@));
}

impl View for Entry {
    type V = Seq<ChunkModel>;

    open spec fn view(&self) -> Seq<ChunkModel> {
        models(self.0@)
    }
}

/// The chunks kept while their running width stays within `width`, the first one that would
/// pass it cut to what is left, and nothing after.
pub open spec fn truncate_line(cs: Seq<ChunkModel>, width: nat) -> Seq<ChunkModel>
    decreases cs.len(),
{
    if cs.len() == 0 {
        Seq::empty()
    } else if chunk_len(cs[0]) > width {
        seq![chunk_truncate(cs[0], width)]
    } else {
        seq![cs[0]] + truncate_line(cs.drop_first(), (width - chunk_len(cs[0])) as nat)
    }
}

/// The pieces of `s` between its spaces, in order; a string without spaces is one piece.
pub open spec fn space_split(s: Seq<char>) -> Seq<Seq<char>>
    decreases s.len(),
{
    if s.len() == 0 {
        seq![Seq::empty()]
    } else {
        let rest = space_split(s.drop_first());
        if s[0] == ' ' {
            seq![Seq::empty()] + rest
        } else {
            rest.update(0, seq![s[0]] + rest[0])
        }
    }
}

/// Text chunks for the pieces of a text: each piece but the last keeps its space.
pub open spec fn spaced_words(ws: Seq<Seq<char>>) -> Seq<ChunkModel> {
    Seq::new(
        ws.len(),
        |i: int| ChunkModel::Text(if i + 1 < ws.len() { ws[i].push(' ') } else { ws[i] }),
    )
}

/// A chunk split into word chunks; a colour marker stays as it is.
pub open spec fn split_chunk(c: ChunkModel) -> Seq<ChunkModel> {
    match c {
        ChunkModel::Colour(_) => seq![c],
        ChunkModel::Text(s) => spaced_words(space_split(s)),
    }
}

/// Every chunk of a record split into word chunks, in order.
pub open spec fn split_words_line(cs: Seq<ChunkModel>) -> Seq<ChunkModel>
    decreases cs.len(),
{
    if cs.len() == 0 {
        Seq::empty()
    } else {
        split_words_line(cs.drop_last()) + split_chunk(cs.last())
    }
}

/// A text whose first `j` characters hold no space, and that ends or has a space right after
/// them, splits into those characters and the pieces of what follows that space.
proof fn lemma_space_split_piece(t: Seq<char>, j: int)
    requires
        0 <= j <= t.len(),
        forall|k: int| 0 <= k < j ==> t[k] != ' ',
        j < t.len() ==> t[j] == ' ',
    ensures
        j == t.len() ==> space_split(t) == seq![t],
        j < t.len() ==> space_split(t) == seq![t.take(j)] + space_split(t.skip(j + 1)),
    decreases j,
{
    if j == 0 {
        if t.len() == 0 {
            assert(t =~= Seq::<char>::empty());
        } else {
            assert(t.take(0) =~= Seq::<char>::empty());
            assert(t.skip(1) =~= t.drop_first());
        }
    } else {
        let d = t.drop_first();
        lemma_space_split_piece(d, j - 1);
        assert(t[0] != ' ');
        if j == t.len() {
            assert(seq![t[0]] + d =~= t);
            assert(space_split(d) == seq![d]);
            assert(seq![d].update(0, seq![t[0]] + d) =~= seq![t]);
            assert(space_split(t) =~= seq![t]);
        } else {
            assert(seq![t[0]] + d.take(j - 1) =~= t.take(j));
            assert(d.skip(j) =~= t.skip(j + 1));
            assert(space_split(t) =~= seq![t.take(j)] + space_split(t.skip(j + 1)));
        }
    }
}

/// The pieces of `s` between its spaces.
fn split_on_space(s: &str) -> (r: Vec<String>)
    ensures
        r@.map_values(|p: String| p@) == space_split(s@),
{
    let n = s.unicode_len();
    let mut out: Vec<String> = Vec::new();
    let mut start: usize = 0;
    let mut i: usize = 0;
    assert(s@.skip(0) =~= s@);
    while i < n
        invariant
            n == s@.len(),
            start <= i <= n,
            forall|k: int| start <= k < i ==> s@[k] != ' ',
            out@.map_values(|p: String| p@) + space_split(s@.skip(start as int)) == space_split(s@),
        decreases n - i,
    {
        if s.get_char(i) == ' ' {
            let piece = s.substring_char(start, i).to_string();
            proof {
                let t = s@.skip(start as int);
                lemma_space_split_piece(t, i - start);
                assert(t.take(i - start) =~= piece@);
                assert(t.skip(i - start + 1) =~= s@.skip(i as int + 1));
                assert((out@.push(piece)).map_values(|p: String| p@)
                    =~= out@.map_values(|p: String| p@).push(piece@));
            }
            out.push(piece);
            start = i + 1;
            assert(out@.map_values(|p: String| p@) + space_split(s@.skip(start as int)) =~= space_split(s@));
        }
        i = i + 1;
    }
    let last = s.substring_char(start, n).to_string();
    proof {
        let t = s@.skip(start as int);
        lemma_space_split_piece(t, n - start);
        assert(t =~= last@);
        assert((out@.push(last)).map_values(|p: String| p@)
            =~= out@.map_values(|p: String| p@).push(last@));
    }
    out.push(last);
    assert(out@.map_values(|p: String| p@) =~= space_split(s@));
    out
}

impl Entry {
    /// An empty record.
    pub fn new() -> (r: Entry)
        ensures
            r@ == Seq::<ChunkModel>::empty(),
    {
        Entry(Vec::new())
    }

    /// A copy of the record.
    pub fn duplicate(&self) -> (r: Entry)
        ensures
            r@ == self@,
    {
        let mut out: Vec<Chunk> = Vec::new();
        let mut i: usize = 0;
        while i < self.0.len()
            invariant
                i <= self.0@.len(),
                models(out@) == models(self.0@).take(i as int),
            decreases self.0@.len() - i,
        {
            let c = self.0[i].duplicate();
            proof { lemma_models_push(out@, c); }
            out.push(c);
            i = i + 1;
            assert(models(out@) =~= models(self.0@).take(i as int));
        }
        assert(models(self.0@).take(i as int) =~= models(self.0@));
        Entry(out)
    }

    /// Appends a chunk.
    pub fn push(&mut self, chunk: Chunk)
        ensures
            final(self)@ == old(self)@.push(chunk@),
    {
        self.0.push(chunk);
        assert(final(self)@ =~= old(self)@.push(chunk@));
    }

    /// The record cut to one line of at most `length` characters.
    pub fn truncate(&self, length: u32) -> (r: Entry)
        ensures
            r@ == truncate_line(self@, length as nat),
    {
        let mut new = Entry::new();
        let mut running: usize = 0;
        let mut i: usize = 0;
        assert(self@.skip(0) =~= self@);
        assert(new@ + truncate_line(self@, length as nat) =~= truncate_line(self@, length as nat));
        while i < self.0.len()
            invariant
                i <= self.0@.len(),
                running <= length,
                new@ + truncate_line(self@.skip(i as int), (length - running) as nat)
                    == truncate_line(self@, length as nat),
            decreases self.0@.len() - i,
        {
            let chunk = &self.0[i];
            let this_len = chunk.len();
            assert(self@.skip(i as int).drop_first() =~= self@.skip(i as int + 1));
            if this_len > length as usize - running {
                new.push(chunk.truncate((length as usize - running) as u32));
                return new;
            }
            new.push(chunk.duplicate());
            running = running + this_len;
            i = i + 1;
            assert(new@ + truncate_line(self@.skip(i as int), (length - running) as nat)
                =~= truncate_line(self@, length as nat));
        }
        assert(self@.skip(i as int) =~= Seq::<ChunkModel>::empty());
        assert(new@ + Seq::<ChunkModel>::empty() =~= new@);
        new
    }

    /// The record with every text split into words, each but the last of a text keeping its
    /// space.
    pub fn split_words(&self) -> (r: Entry)
        ensures
            r@ == split_words_line(self@),
    {
        let mut out: Vec<Chunk> = Vec::new();
        let mut i: usize = 0;
        while i < self.0.len()
            invariant
                i <= self.0@.len(),
                models(out@) == split_words_line(self@.take(i as int)),
            decreases self.0@.len() - i,
        {
            assert(self@.take(i as int + 1).drop_last() =~= self@.take(i as int));
            match &self.0[i] {
                Chunk::Text { value } => {
                    let pieces = split_on_space(value.as_str());
                    let ghost ws = pieces@.map_values(|p: String| p@);
                    assert(models(out@) =~= split_words_line(self@.take(i as int)) + spaced_words(ws).take(0));
                    let mut j: usize = 0;
                    while j < pieces.len()
                        invariant
                            j <= pieces@.len(),
                            ws == pieces@.map_values(|p: String| p@),
                            models(out@) == split_words_line(self@.take(i as int)) + spaced_words(ws).take(j as int),
                        decreases pieces@.len() - j,
                    {
                        let piece = &pieces[j];
                        assert(ws[j as int] == piece@);
                        let c = if j + 1 < pieces.len() {
                            proof { reveal_strlit(" "); }
                            let spaced = piece.clone().concat(" ");
                            assert(spaced@ =~= ws[j as int].push(' '));
                            Chunk::Text { value: spaced }
                        } else {
                            Chunk::Text { value: piece.clone() }
                        };
                        proof { lemma_models_push(out@, c); }
                        out.push(c);
                        j = j + 1;
                        assert(spaced_words(ws).take(j as int) =~= spaced_words(ws).take(j - 1).push(c@));
                    }
                    assert(spaced_words(ws).take(j as int) =~= spaced_words(ws));
                },
                Chunk::Colour { value } => {
                    let c = Chunk::Colour { value: *value };
                    proof { lemma_models_push(out@, c); }
                    out.push(c);
                },
            }
            i = i + 1;
            assert(models(out@) =~= split_words_line(self@.take(i as int)));
        }
        assert(self@.take(i as int) =~= self@);
        Entry(out)
    }
}

} // verus!
