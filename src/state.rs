use vstd::prelude::*;
use crate::chunk::ChunkModel;
use crate::entry::{Entry, truncate_line, lines_view};
use crate::position::{ScrollPosition, resolve};
use crate::wrap::{hard_wrap, word_wrap};

verus! {

/// How records are laid out and how many are kept.
pub struct Config {
    /// Long records continue on further lines; otherwise they are cut at the width.
    pub line_wrap: bool,
    /// When wrapping, words move whole to the next line where they can.
    pub word_wrap: bool,
    /// The most records kept at once.
    pub max_entries: usize,
}

/// The bounded scroll buffer and its laid-out lines.
pub struct State {
    /// Positions before the retained window: evicted, or never stored.
    pub skip: u32,
    /// The retained records with their uids, oldest first.
    pub entries: Vec<(u32, Entry)>,
    /// The display lines last computed.
    pub formatted_cache: Vec<Entry>,
    /// The width those lines were computed for.
    pub formatted_cache_width: u32,
    pub config: Config,
    /// The last uid handed out; the next one is one more.
    pub last_uid: u32,
}

/// The retained records as (uid, chunks).
pub open spec fn records(v: Seq<(u32, Entry)>) -> Seq<(u32, Seq<ChunkModel>)> {
    v.map_values(|p: (u32, Entry)| (p.0, p.1@))
}

/// The buffer as the request protocol sees it: its counters and its records.
pub ghost struct BufferModel {
    pub skip: nat,
    pub records: Seq<(u32, Seq<ChunkModel>)>,
    pub last_uid: nat,
    pub max_entries: nat,
}

/// Whether some record carries `uid`.
pub open spec fn has_uid(rs: Seq<(u32, Seq<ChunkModel>)>, uid: u32) -> bool {
    exists|i: int| 0 <= i < rs.len() && #[trigger] rs[i].0 == uid
}

/// The position of a record that carries `uid`.
pub open spec fn uid_index(rs: Seq<(u32, Seq<ChunkModel>)>, uid: u32) -> int {
    choose|i: int| 0 <= i < rs.len() && #[trigger] rs[i].0 == uid
}

/// The display lines of one record under the configured mode.
pub open spec fn entry_lines(e: Seq<ChunkModel>, width: nat, config: Config) -> Seq<Seq<ChunkModel>> {
    if !config.line_wrap {
        seq![truncate_line(e, width)]
    } else if !config.word_wrap {
        hard_wrap(e, width)
    } else {
        word_wrap(e, width)
    }
}

/// The display lines of all records, in order.
pub open spec fn layout(rs: Seq<(u32, Seq<ChunkModel>)>, width: nat, config: Config) -> Seq<Seq<ChunkModel>>
    decreases rs.len(),
{
    if rs.len() == 0 {
        Seq::empty()
    } else {
        layout(rs.drop_last(), width, config) + entry_lines(rs.last().1, width, config)
    }
}

/// Hands out the next uid: one more than the last.
pub fn gen_uid(last: &mut u32) -> (r: u32)
    requires
        *old(last) < u32::MAX,
    ensures
        r == *old(last) + 1,
        *final(last) == r,
{
    *last = *last + 1;
    *last
}

/// What `add` does: the uid it hands out, where the record goes, and what is evicted.
pub open spec fn add_post(
    before: State,
    entry: Seq<ChunkModel>,
    position: ScrollPosition,
    after: State,
    r: Option<u32>,
) -> bool {
    let index = resolve(position, before.cursor());
    let uid = (before.last_uid + 1) as u32;
    let inserted = records(before.entries@).insert(index - before.skip, (uid, entry));
    &&& after.config == before.config
    &&& after.formatted_cache == before.formatted_cache
    &&& after.formatted_cache_width == before.formatted_cache_width
    &&& if index < before.skip {
        &&& r is None
        &&& after.skip == before.skip + 1
        &&& after.entries@ == before.entries@
        &&& after.last_uid == before.last_uid
    } else {
        &&& r == Some(uid)
        &&& after.last_uid == before.last_uid + 1
        &&& if inserted.len() > before.config.max_entries {
            &&& records(after.entries@) == inserted.drop_first()
            &&& after.skip == before.skip + 1
        } else {
            &&& records(after.entries@) == inserted
            &&& after.skip == before.skip
        }
    }
}

impl State {
    /// Every retained uid was handed out already, no two are equal, and the bound holds.
    pub open spec fn wf(&self) -> bool {
        &&& self.entries@.len() <= self.config.max_entries
        &&& forall|i: int| 0 <= i < self.entries@.len() ==> #[trigger] self.entries@[i].0 <= self.last_uid
        &&& forall|i: int, j: int|
            0 <= i < j < self.entries@.len() ==> #[trigger] self.entries@[i].0 != #[trigger] self.entries@[j].0
    }

    /// The buffer as the request protocol sees it.
    pub open spec fn model(&self) -> BufferModel {
        BufferModel {
            skip: self.skip as nat,
            records: records(self.entries@),
            last_uid: self.last_uid as nat,
            max_entries: self.config.max_entries as nat,
        }
    }

    /// The number of logical positions so far: those skipped and those retained.
    pub open spec fn cursor(&self) -> nat {
        self.skip as nat + self.entries@.len()
    }

    /// Whether a retained record carries `uid`.
    pub open spec fn holds_uid(&self, uid: u32) -> bool {
        exists|i: int| 0 <= i < self.entries@.len() && #[trigger] self.entries@[i].0 == uid
    }

    /// An empty buffer.
    pub fn new(config: Config) -> (r: State)
        ensures
            r.wf(),
            r.skip == 0,
            r.entries@.len() == 0,
            r.formatted_cache@.len() == 0,
            r.formatted_cache_width == 0,
            r.config == config,
            r.last_uid == 0,
    {
        State {
            skip: 0,
            entries: Vec::new(),
            formatted_cache: Vec::new(),
            formatted_cache_width: 0,
            config,
            last_uid: 0,
        }
    }

    /// Inserts a record at a position and hands it a fresh uid. A position before the retained
    /// window stores nothing but still takes up a slot; past the bound the oldest record goes.
    pub fn add(&mut self, entry: Entry, position: ScrollPosition) -> (r: Option<u32>)
        requires
            old(self).wf(),
            old(self).cursor() < u32::MAX,
            old(self).last_uid < u32::MAX,
        ensures
            final(self).wf(),
            add_post(*old(self), entry@, position, *final(self), r),
    {
        let cursor = self.entries.len() as u32 + self.skip;
        let index = position.eval(cursor);
        if index < self.skip {
            self.skip = self.skip + 1;
            return None;
        }
        let local = (index - self.skip) as usize;
        let uid = gen_uid(&mut self.last_uid);
        let ghost before = self.entries@;
        let ghost e = entry@;
        self.entries.insert(local, (uid, entry));
        assert(records(self.entries@) =~= records(before).insert(local as int, (uid, e)));
        if self.entries.len() > self.config.max_entries {
            let ghost full = self.entries@;
            let _ = self.entries.remove(0);
            assert(records(self.entries@) =~= records(full).drop_first());
            self.skip = self.skip + 1;
        }
        assert forall|i: int| 0 <= i < self.entries@.len() implies #[trigger] self.entries@[i].0 <= self.last_uid by {}
        Some(uid)
    }

    /// Removes the record with uid `id`, if there is one.
    pub fn remove(&mut self, id: u32) -> (r: bool)
        requires
            old(self).wf(),
        ensures
            final(self).wf(),
            r == old(self).holds_uid(id),
            final(self).skip == old(self).skip,
            final(self).last_uid == old(self).last_uid,
            final(self).config == old(self).config,
            final(self).formatted_cache == old(self).formatted_cache,
            final(self).formatted_cache_width == old(self).formatted_cache_width,
            r ==> exists|i: int|
                0 <= i < old(self).entries@.len() && old(self).entries@[i].0 == id
                    && #[trigger] records(final(self).entries@) == records(old(self).entries@).remove(i),
            !r ==> final(self).entries@ == old(self).entries@,
    {
        let mut i: usize = 0;
        while i < self.entries.len()
            invariant
                i <= self.entries@.len(),
                *self == *old(self),
                old(self).wf(),
                forall|k: int| 0 <= k < i ==> #[trigger] self.entries@[k].0 != id,
            decreases self.entries@.len() - i,
        {
            if self.entries[i].0 == id {
                let ghost before = self.entries@;
                let _ = self.entries.remove(i);
                assert(records(self.entries@) =~= records(before).remove(i as int));
                assert forall|a: int, b: int| 0 <= a < b < self.entries@.len()
                    implies #[trigger] self.entries@[a].0 != #[trigger] self.entries@[b].0 by {
                    let a2 = if a < i { a } else { a + 1 };
                    let b2 = if b < i { b } else { b + 1 };
                    assert(self.entries@[a] == before[a2]);
                    assert(self.entries@[b] == before[b2]);
                }
                assert forall|k: int| 0 <= k < self.entries@.len() implies #[trigger] self.entries@[k].0 <= self.last_uid by {
                    let k2 = if k < i { k } else { k + 1 };
                    assert(self.entries@[k] == before[k2]);
                }
                return true;
            }
            i = i + 1;
        }
        false
    }

    /// Replaces the chunks of the record with uid `id`, if there is one.
    pub fn update(&mut self, id: u32, new: Entry) -> (r: bool)
        requires
            old(self).wf(),
        ensures
            final(self).wf(),
            r == old(self).holds_uid(id),
            final(self).skip == old(self).skip,
            final(self).last_uid == old(self).last_uid,
            final(self).config == old(self).config,
            final(self).formatted_cache == old(self).formatted_cache,
            final(self).formatted_cache_width == old(self).formatted_cache_width,
            r ==> exists|i: int|
                0 <= i < old(self).entries@.len() && old(self).entries@[i].0 == id
                    && #[trigger] records(final(self).entries@) == records(old(self).entries@).update(i, (id, new@)),
            !r ==> final(self).entries@ == old(self).entries@,
    {
        let mut i: usize = 0;
        while i < self.entries.len()
            invariant
                i <= self.entries@.len(),
                *self == *old(self),
                old(self).wf(),
                forall|k: int| 0 <= k < i ==> #[trigger] self.entries@[k].0 != id,
            decreases self.entries@.len() - i,
        {
            if self.entries[i].0 == id {
                let ghost before = self.entries@;
                let ghost e = new@;
                self.entries.set(i, (id, new));
                assert(records(self.entries@) =~= records(before).update(i as int, (id, e)));
                assert forall|a: int, b: int| 0 <= a < b < self.entries@.len()
                    implies #[trigger] self.entries@[a].0 != #[trigger] self.entries@[b].0 by {
                    assert(self.entries@[a].0 == before[a].0);
                    assert(self.entries@[b].0 == before[b].0);
                }
                assert forall|k: int| 0 <= k < self.entries@.len() implies #[trigger] self.entries@[k].0 <= self.last_uid by {
                    assert(self.entries@[k].0 == before[k].0);
                }
                return true;
            }
            i = i + 1;
        }
        false
    }

    /// Lays out every retained record at `width`; a zero width leaves everything as it was.
    pub fn format(&mut self, width: u32)
        ensures
            final(self).skip == old(self).skip,
            final(self).entries == old(self).entries,
            final(self).config == old(self).config,
            final(self).last_uid == old(self).last_uid,
            width == 0 ==> final(self).formatted_cache == old(self).formatted_cache,
            width == 0 ==> final(self).formatted_cache_width == old(self).formatted_cache_width,
            width > 0 ==> final(self).formatted_cache_width == width,
            width > 0 ==> lines_view(final(self).formatted_cache@) == layout(
                records(old(self).entries@),
                width as nat,
                old(self).config,
            ),
    {
        if width == 0 {
            return;
        }
        self.formatted_cache_width = width;
        let mut cache: Vec<Entry> = Vec::new();
        let mut i: usize = 0;
        while i < self.entries.len()
            invariant
                width > 0,
                i <= self.entries@.len(),
                lines_view(cache@) == layout(records(self.entries@.take(i as int)), width as nat, self.config),
            decreases self.entries@.len() - i,
        {
            let entry = &self.entries[i].1;
            let mut lines: Vec<Entry> = if !self.config.line_wrap {
                let one = entry.truncate(width);
                let mut v: Vec<Entry> = Vec::new();
                v.push(one);
                assert(lines_view(v@) =~= seq![one@]);
                v
            } else if !self.config.word_wrap {
                entry.plain_wrap(width)
            } else {
                entry.word_wrap(width)
            };
            let ghost before = cache@;
            let ghost added = lines@;
            cache.append(&mut lines);
            assert(lines_view(cache@) =~= lines_view(before) + lines_view(added));
            assert(records(self.entries@.take(i as int + 1)).drop_last() =~= records(self.entries@.take(i as int)));
            i = i + 1;
        }
        assert(self.entries@.take(i as int) =~= self.entries@);
        self.formatted_cache = cache;
    }
}

/// Uids are handed out in increasing order: a record added after another one gets a greater
/// uid, and no retained record already holds it.
pub proof fn lemma_uids_increase(
    s0: State,
    e1: Seq<ChunkModel>,
    p1: ScrollPosition,
    s1: State,
    r1: Option<u32>,
    e2: Seq<ChunkModel>,
    p2: ScrollPosition,
    s2: State,
    r2: Option<u32>,
)
    requires
        s0.wf(),
        add_post(s0, e1, p1, s1, r1),
        add_post(s1, e2, p2, s2, r2),
        r1 is Some,
        r2 is Some,
    ensures
        r1->0 < r2->0,
        !s1.holds_uid(r2->0),
{
    assert(s1.last_uid == s0.last_uid + 1);
    assert(r1->0 == s1.last_uid);
    assert(r2->0 == s1.last_uid + 1);
    if s1.holds_uid(r2->0) {
        let i = choose|i: int| 0 <= i < s1.entries@.len() && #[trigger] s1.entries@[i].0 == r2->0;
        let index = resolve(p1, s0.cursor());
        let inserted = records(s0.entries@).insert(index - s0.skip, (r1->0, e1));
        if inserted.len() > s0.config.max_entries {
            assert(records(s1.entries@)[i] == inserted.drop_first()[i]);
        } else {
            assert(records(s1.entries@)[i] == inserted[i]);
        }
        let k = if inserted.len() > s0.config.max_entries { i + 1 } else { i };
        if k != index - s0.skip {
            let j = if k < index - s0.skip { k } else { k - 1 };
            assert(inserted[k] == records(s0.entries@)[j]);
            assert(s0.entries@[j].0 <= s0.last_uid);
        }
    }
}

/// Adding a record keeps the retention bound, and the count of skipped positions never
/// goes down.
pub proof fn lemma_add_keeps_bound(
    s0: State,
    e: Seq<ChunkModel>,
    p: ScrollPosition,
    s1: State,
    r: Option<u32>,
)
    requires
        s0.wf(),
        add_post(s0, e, p, s1, r),
    ensures
        s1.entries@.len() <= s1.config.max_entries,
        s1.skip >= s0.skip,
{
    let index = resolve(p, s0.cursor());
    if index >= s0.skip {
        let inserted = records(s0.entries@).insert(index - s0.skip, ((s0.last_uid + 1) as u32, e));
        assert(records(s1.entries@).len() == s1.entries@.len());
        assert(inserted.len() == s0.entries@.len() + 1);
    }
}

} // verus!
