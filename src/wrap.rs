use vstd::prelude::*;
use crate::chunk::{Chunk, ChunkModel, chunk_len, chunk_truncate, chunk_skip, lemma_skip_narrows};
use crate::entry::{Entry, models, lines_view, split_words_line};

verus! {

/// Total display width of a run of chunks.
pub open spec fn total_len(cs: Seq<ChunkModel>) -> nat
    decreases cs.len(),
{
    if cs.len() == 0 {
        0
    } else {
        chunk_len(cs[0]) + total_len(cs.drop_first())
    }
}

/// What a fresh line starts with: the colour last seen, if any.
pub open spec fn colour_head(prev: Option<ChunkModel>) -> Seq<ChunkModel> {
    match prev {
        Some(c) => seq![c],
        None => Seq::empty(),
    }
}

/// The colour in effect after chunk `c`.
pub open spec fn next_colour(prev: Option<ChunkModel>, c: ChunkModel) -> Option<ChunkModel> {
    if c is Colour {
        Some(c)
    } else {
        prev
    }
}

/// Hard wrap of the chunks `rest`, starting on a line that holds `line` and is `running` wide:
/// a chunk that does not fit is cut at the edge, a new line opens with the colour in effect,
/// and the chunk goes on with its first `width` characters dropped.
pub open spec fn hard_wrap_from(
    rest: Seq<ChunkModel>,
    width: nat,
    running: nat,
    prev: Option<ChunkModel>,
    line: Seq<ChunkModel>,
) -> Seq<Seq<ChunkModel>>
    decreases total_len(rest) + rest.len(),
{
    if rest.len() == 0 || width == 0 || running > width {
        seq![line]
    } else {
        let c = rest[0];
        let prev2 = next_colour(prev, c);
        if running + chunk_len(c) > width {
            proof {
                assert(rest.update(0, chunk_skip(c, width)).drop_first() =~= rest.drop_first());
                lemma_skip_narrows(c, width);
            }
            seq![line.push(chunk_truncate(c, (width - running) as nat))] + hard_wrap_from(
                rest.update(0, chunk_skip(c, width)),
                width,
                0,
                prev2,
                colour_head(prev2),
            )
        } else {
            hard_wrap_from(rest.drop_first(), width, running + chunk_len(c), prev2, line.push(c))
        }
    }
}

/// The display lines of a record under hard wrap at `width`.
pub open spec fn hard_wrap(cs: Seq<ChunkModel>, width: nat) -> Seq<Seq<ChunkModel>> {
    hard_wrap_from(cs, width, 0, None, Seq::empty())
}

/// Word wrap of the word chunks `rest`: a word that does not fit moves whole to a new line,
/// unless it is wider than a line, in which case it is cut as under hard wrap.
pub open spec fn word_wrap_from(
    rest: Seq<ChunkModel>,
    width: nat,
    running: nat,
    prev: Option<ChunkModel>,
    line: Seq<ChunkModel>,
) -> Seq<Seq<ChunkModel>>
    decreases total_len(rest) + rest.len(), running,
{
    if rest.len() == 0 || width == 0 || running > width {
        seq![line]
    } else {
        let c = rest[0];
        let prev2 = next_colour(prev, c);
        if running + chunk_len(c) > width {
            if chunk_len(c) > width {
                proof {
                    assert(rest.update(0, chunk_skip(c, width)).drop_first() =~= rest.drop_first());
                    lemma_skip_narrows(c, width);
                }
                seq![line.push(chunk_truncate(c, (width - running) as nat))] + word_wrap_from(
                    rest.update(0, chunk_skip(c, width)),
                    width,
                    0,
                    prev2,
                    colour_head(prev2),
                )
            } else {
                seq![line] + word_wrap_from(rest, width, 0, prev2, colour_head(prev2))
            }
        } else {
            word_wrap_from(rest.drop_first(), width, running + chunk_len(c), prev2, line.push(c))
        }
    }
}

/// The display lines of a record under word wrap at `width`.
pub open spec fn word_wrap(cs: Seq<ChunkModel>, width: nat) -> Seq<Seq<ChunkModel>> {
    word_wrap_from(split_words_line(cs), width, 0, None, Seq::empty())
}

/// The model of the colour last seen.
pub open spec fn colour_model(prev: Option<Chunk>) -> Option<ChunkModel> {
    match prev {
        Some(c) => Some(c@),
        None => None,
    }
}

/// The lines of a pushed sequence are the lines with the pushed entry's model at the end.
proof fn lemma_lines_push(v: Seq<Entry>, e: Entry)
    ensures
        lines_view(v.push(e)) == lines_view(v).push(e@),
{
    assert(lines_view(v.push(e)) =~= lines_view(v).push(e@));
}

/// A fresh line holding the colour last seen, if any.
fn fresh_line(prev: &Option<Chunk>) -> (r: Entry)
    ensures
        r@ == colour_head(colour_model(*prev)),
{
    let mut line = Entry::new();
    match prev {
        Some(c) => {
            line.push(c.duplicate());
            assert(line@ =~= colour_head(colour_model(*prev)));
        },
        None => {},
    }
    line
}

impl Entry {
    /// The record laid out on lines of `length` characters, cutting text at the edge.
    pub fn plain_wrap(&self, length: u32) -> (r: Vec<Entry>)
        requires
            length > 0,
        ensures
            lines_view(r@) == hard_wrap(self@, length as nat),
    {
        let mut done: Vec<Entry> = Vec::new();
        let mut line = Entry::new();
        let mut running: usize = 0;
        let mut previous_colour: Option<Chunk> = None;
        let mut chunks = self.duplicate().0;
        let mut cursor: usize = 0;
        assert(models(chunks@).skip(0) =~= self@);
        assert(lines_view(done@) + hard_wrap(self@, length as nat) =~= hard_wrap(self@, length as nat));
        while cursor < chunks.len()
            invariant
                length > 0,
                cursor <= chunks@.len(),
                running <= length,
                lines_view(done@) + hard_wrap_from(
                    models(chunks@).skip(cursor as int),
                    length as nat,
                    running as nat,
                    colour_model(previous_colour),
                    line@,
                ) == hard_wrap(self@, length as nat),
            decreases total_len(models(chunks@).skip(cursor as int)) + chunks@.len() - cursor,
        {
            let ghost rest = models(chunks@).skip(cursor as int);
            let chunk = chunks[cursor].duplicate();
            let this_len = chunk.len();
            if chunk.is_colour() {
                previous_colour = Some(chunk.duplicate());
            }
            if this_len > length as usize - running {
                let head = chunk.truncate((length as usize - running) as u32);
                line.push(head);
                proof { lemma_lines_push(done@, line); }
                done.push(line);
                running = 0;
                line = fresh_line(&previous_colour);
                let new_head = chunk.skip(length - running as u32);
                chunks.set(cursor, new_head);
                assert(models(chunks@).skip(cursor as int) =~= rest.update(0, chunk_skip(rest[0], length as nat)));
                assert(rest.update(0, chunk_skip(rest[0], length as nat)).drop_first() =~= rest.drop_first());
                proof { lemma_skip_narrows(rest[0], length as nat); }
                assert(lines_view(done@) + hard_wrap_from(
                    models(chunks@).skip(cursor as int),
                    length as nat,
                    running as nat,
                    colour_model(previous_colour),
                    line@,
                ) =~= hard_wrap(self@, length as nat));
            } else {
                line.push(chunk);
                running = running + this_len;
                cursor = cursor + 1;
                assert(models(chunks@).skip(cursor as int) =~= rest.drop_first());
            }
        }
        assert(models(chunks@).skip(cursor as int) =~= Seq::<ChunkModel>::empty());
        proof { lemma_lines_push(done@, line); }
        done.push(line);
        assert(lines_view(done@) =~= hard_wrap(self@, length as nat));
        done
    }

    /// The record laid out on lines of `length` characters, moving words whole where they fit.
    pub fn word_wrap(&self, length: u32) -> (r: Vec<Entry>)
        requires
            length > 0,
        ensures
            lines_view(r@) == word_wrap(self@, length as nat),
    {
        let mut done: Vec<Entry> = Vec::new();
        let mut line = Entry::new();
        let mut running: usize = 0;
        let mut previous_colour: Option<Chunk> = None;
        let mut chunks = self.split_words().0;
        let mut cursor: usize = 0;
        assert(models(chunks@).skip(0) =~= split_words_line(self@));
        assert(lines_view(done@) + word_wrap(self@, length as nat) =~= word_wrap(self@, length as nat));
        while cursor < chunks.len()
            invariant
                length > 0,
                cursor <= chunks@.len(),
                running <= length,
                lines_view(done@) + word_wrap_from(
                    models(chunks@).skip(cursor as int),
                    length as nat,
                    running as nat,
                    colour_model(previous_colour),
                    line@,
                ) == word_wrap(self@, length as nat),
            decreases total_len(models(chunks@).skip(cursor as int)) + chunks@.len() - cursor, running,
        {
            let ghost rest = models(chunks@).skip(cursor as int);
            let chunk = chunks[cursor].duplicate();
            let this_len = chunk.len();
            if chunk.is_colour() {
                previous_colour = Some(chunk.duplicate());
            }
            if this_len > length as usize - running {
                if this_len > length as usize {
                    let head = chunk.truncate((length as usize - running) as u32);
                    line.push(head);
                    let new_head = chunk.skip(length);
                    chunks.set(cursor, new_head);
                    assert(models(chunks@).skip(cursor as int) =~= rest.update(0, chunk_skip(rest[0], length as nat)));
                    assert(rest.update(0, chunk_skip(rest[0], length as nat)).drop_first() =~= rest.drop_first());
                    proof { lemma_skip_narrows(rest[0], length as nat); }
                }
                proof { lemma_lines_push(done@, line); }
                done.push(line);
                running = 0;
                line = fresh_line(&previous_colour);
                assert(lines_view(done@) + word_wrap_from(
                    models(chunks@).skip(cursor as int),
                    length as nat,
                    running as nat,
                    colour_model(previous_colour),
                    line@,
                ) =~= word_wrap(self@, length as nat));
            } else {
                line.push(chunk);
                running = running + this_len;
                cursor = cursor + 1;
                assert(models(chunks@).skip(cursor as int) =~= rest.drop_first());
            }
        }
        assert(models(chunks@).skip(cursor as int) =~= Seq::<ChunkModel>::empty());
        proof { lemma_lines_push(done@, line); }
        done.push(line);
        assert(lines_view(done@) =~= word_wrap(self@, length as nat));
        done
    }
}

} // verus!
