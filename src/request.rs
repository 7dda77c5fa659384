use vstd::prelude::*;
use crate::entry::Entry;
use crate::position::{ScrollPosition, resolve};
use crate::entry::lines_view;
use crate::state::{State, BufferModel, layout, records, has_uid, uid_index};

verus! {

/// One mutation request with its correlation id.
pub struct ScrollRequest {
    pub content: ScrollRequestVariant,
    pub id: u32,
}

pub enum ScrollRequestVariant {
    AddEntry { position: ScrollPosition, entry: Entry },
    RemoveEntry { uid: u32 },
    UpdateEntry { uid: u32, new: Entry },
    Multiple { requests: Vec<ScrollRequest> },
}

/// One response with the correlation id it answers.
pub struct ScrollResponse {
    pub content: ScrollResponseVariant,
    pub id: u32,
}

pub enum ScrollResponseVariant {
    Created { uid: u32 },
    Updated,
    Removed,
    NotFound,
    Recieved,
    Multiple { responses: Vec<ScrollResponseVariant> },
}

impl ScrollResponse {
    pub fn new(id: u32, content: ScrollResponseVariant) -> (r: Self)
        ensures
            r.id == id,
            r.content == content,
    {
        ScrollResponse { content, id }
    }
}

/// The number of requests in a request, itself and all nested ones.
pub open spec fn request_size(r: ScrollRequest) -> nat
    decreases r,
{
    match r.content {
        ScrollRequestVariant::Multiple { requests } => 1 + queue_size(requests@),
        _ => 1,
    }
}

/// The number of requests in a queue, nested ones included.
pub open spec fn queue_size(q: Seq<ScrollRequest>) -> nat
    decreases q,
{
    if q.len() == 0 {
        0
    } else {
        queue_size(q.subrange(0, q.len() - 1)) + request_size(q[q.len() - 1])
    }
}

/// The size of two queues one after the other is the sum of their sizes.
pub proof fn lemma_queue_size_concat(a: Seq<ScrollRequest>, b: Seq<ScrollRequest>)
    ensures
        queue_size(a + b) == queue_size(a) + queue_size(b),
    decreases b.len(),
{
    if b.len() == 0 {
        assert(a + b =~= a);
    } else {
        let bl = b.subrange(0, b.len() - 1);
        lemma_queue_size_concat(a, bl);
        assert((a + b).subrange(0, (a + b).len() - 1) =~= a + bl);
    }
}

/// Whether a response reports a change of the buffer.
pub open spec fn is_change(c: ScrollResponseVariant) -> bool {
    c is Created || c is Removed || c is Updated
}

/// What one request does to the buffer, and the answer it gets. A record is added only while
/// the position count and the uid counter stay below `u32::MAX`.
pub open spec fn step(m: BufferModel, content: ScrollRequestVariant) -> (BufferModel, ScrollResponseVariant) {
    match content {
        ScrollRequestVariant::AddEntry { position, entry } => {
            let cursor = m.skip + m.records.len();
            let index = resolve(position, cursor);
            let uid = (m.last_uid + 1) as u32;
            let inserted = m.records.insert(index - m.skip, (uid, entry@));
            if !(cursor < u32::MAX && m.last_uid < u32::MAX) {
                (m, ScrollResponseVariant::NotFound)
            } else if index < m.skip {
                (
                    BufferModel { skip: m.skip + 1, records: m.records, last_uid: m.last_uid, max_entries: m.max_entries },
                    ScrollResponseVariant::NotFound,
                )
            } else if inserted.len() > m.max_entries {
                (
                    BufferModel {
                        skip: m.skip + 1,
                        records: inserted.drop_first(),
                        last_uid: m.last_uid + 1,
                        max_entries: m.max_entries,
                    },
                    ScrollResponseVariant::Created { uid },
                )
            } else {
                (
                    BufferModel { skip: m.skip, records: inserted, last_uid: m.last_uid + 1, max_entries: m.max_entries },
                    ScrollResponseVariant::Created { uid },
                )
            }
        },
        ScrollRequestVariant::RemoveEntry { uid } => if has_uid(m.records, uid) {
            (
                BufferModel {
                    skip: m.skip,
                    records: m.records.remove(uid_index(m.records, uid)),
                    last_uid: m.last_uid,
                    max_entries: m.max_entries,
                },
                ScrollResponseVariant::Removed,
            )
        } else {
            (m, ScrollResponseVariant::NotFound)
        },
        ScrollRequestVariant::UpdateEntry { uid, new } => if has_uid(m.records, uid) {
            (
                BufferModel {
                    skip: m.skip,
                    records: m.records.update(uid_index(m.records, uid), (uid, new@)),
                    last_uid: m.last_uid,
                    max_entries: m.max_entries,
                },
                ScrollResponseVariant::Updated,
            )
        } else {
            (m, ScrollResponseVariant::NotFound)
        },
        ScrollRequestVariant::Multiple { .. } => (m, ScrollResponseVariant::Recieved),
    }
}

/// The queue after its front request is taken: a batch adds its members at the back.
pub open spec fn next_queue(queue: Seq<ScrollRequest>) -> Seq<ScrollRequest> {
    if queue[0].content is Multiple {
        queue.drop_first() + queue[0].content->requests@
    } else {
        queue.drop_first()
    }
}

/// Runs a queue of requests to the end, front first: the responses in the order the requests
/// were taken, and the buffer afterwards.
pub open spec fn run(m: BufferModel, queue: Seq<ScrollRequest>) -> (Seq<ScrollResponse>, BufferModel)
    decreases queue_size(queue),
{
    if queue.len() == 0 {
        (Seq::empty(), m)
    } else {
        let req = queue[0];
        let (m2, content) = step(m, req.content);
        proof {
            lemma_queue_size_next(queue);
        }
        let (rest, last) = run(m2, next_queue(queue));
        (seq![ScrollResponse { content, id: req.id }] + rest, last)
    }
}

/// Taking the front request off a queue leaves one request fewer to run.
pub proof fn lemma_queue_size_next(queue: Seq<ScrollRequest>)
    requires
        queue.len() > 0,
    ensures
        queue_size(next_queue(queue)) + 1 == queue_size(queue),
{
    let req = queue[0];
    assert(queue =~= seq![req] + queue.drop_first());
    lemma_queue_size_concat(seq![req], queue.drop_first());
    assert(seq![req].subrange(0, 0) =~= Seq::<ScrollRequest>::empty());
    assert(queue_size(Seq::<ScrollRequest>::empty()) == 0);
    assert(queue_size(seq![req]) == request_size(req));
    if req.content is Multiple {
        lemma_queue_size_concat(queue.drop_first(), req.content->requests@);
        assert(request_size(req) == 1 + queue_size(req.content->requests@));
    } else {
        assert(request_size(req) == 1);
    }
}

/// Applies one request taken from the front of the queue: a batch puts its members at the back
/// and is acknowledged; any other request is applied to the buffer.
pub fn apply_one(state: &mut State, request: ScrollRequest, queue: &mut Vec<ScrollRequest>) -> (r: ScrollResponse)
    requires
        old(state).wf(),
    ensures
        final(state).wf(),
        r.id == request.id,
        (final(state).model(), r.content) == step(old(state).model(), request.content),
        final(state).config == old(state).config,
        final(state).formatted_cache == old(state).formatted_cache,
        final(state).formatted_cache_width == old(state).formatted_cache_width,
        request.content is Multiple ==> final(queue)@ == old(queue)@ + request.content->requests@,
        !(request.content is Multiple) ==> final(queue)@ == old(queue)@,
{
    let ScrollRequest { content, id } = request;
    match content {
        ScrollRequestVariant::AddEntry { position, entry } => {
            if state.entries.len() >= (u32::MAX - state.skip) as usize || state.last_uid == u32::MAX {
                return ScrollResponse::new(id, ScrollResponseVariant::NotFound);
            }
            match state.add(entry, position) {
                Some(uid) => ScrollResponse::new(id, ScrollResponseVariant::Created { uid }),
                None => ScrollResponse::new(id, ScrollResponseVariant::NotFound),
            }
        },
        ScrollRequestVariant::RemoveEntry { uid } => {
            let ghost before = *state;
            if state.remove(uid) {
                proof { lemma_uid_index(before, uid); }
                ScrollResponse::new(id, ScrollResponseVariant::Removed)
            } else {
                proof { lemma_uid_absent(before, uid); }
                ScrollResponse::new(id, ScrollResponseVariant::NotFound)
            }
        },
        ScrollRequestVariant::UpdateEntry { uid, new } => {
            let ghost before = *state;
            if state.update(uid, new) {
                proof { lemma_uid_index(before, uid); }
                ScrollResponse::new(id, ScrollResponseVariant::Updated)
            } else {
                proof { lemma_uid_absent(before, uid); }
                ScrollResponse::new(id, ScrollResponseVariant::NotFound)
            }
        },
        ScrollRequestVariant::Multiple { requests } => {
            let mut requests = requests;
            queue.append(&mut requests);
            ScrollResponse::new(id, ScrollResponseVariant::Recieved)
        },
    }
}

/// In a well-formed buffer, the record that carries a uid is the only one.
proof fn lemma_uid_index(s: State, uid: u32)
    requires
        s.wf(),
        s.holds_uid(uid),
    ensures
        has_uid(s.model().records, uid),
        forall|i: int| 0 <= i < s.entries@.len() && s.entries@[i].0 == uid ==> i == uid_index(s.model().records, uid),
{
    let rs = s.model().records;
    let i = choose|i: int| 0 <= i < s.entries@.len() && #[trigger] s.entries@[i].0 == uid;
    assert(rs[i].0 == uid);
    let j = uid_index(rs, uid);
    assert(rs[j].0 == s.entries@[j].0);
    assert forall|k: int| 0 <= k < s.entries@.len() && s.entries@[k].0 == uid implies k == j by {
        if k < j {
            assert(s.entries@[k].0 != s.entries@[j].0);
        } else if j < k {
            assert(s.entries@[j].0 != s.entries@[k].0);
        }
    }
}

/// A uid that no entry carries is in no record.
proof fn lemma_uid_absent(s: State, uid: u32)
    requires
        !s.holds_uid(uid),
    ensures
        !has_uid(s.model().records, uid),
{
    let rs = s.model().records;
    if has_uid(rs, uid) {
        let i = choose|i: int| 0 <= i < rs.len() && #[trigger] rs[i].0 == uid;
        assert(s.entries@[i].0 == uid);
    }
}

/// Whether a response reports a change of the buffer.
fn changes(c: &ScrollResponseVariant) -> (r: bool)
    ensures
        r == is_change(*c),
{
    match c {
        ScrollResponseVariant::Created { .. } => true,
        ScrollResponseVariant::Removed => true,
        ScrollResponseVariant::Updated => true,
        _ => false,
    }
}

/// Runs a request to completion: requests are taken from a queue in order, a batch puts its
/// members at the back, and each request taken gets one response, in the same order.
/// The flag tells whether any of them changed the buffer.
pub fn process(state: &mut State, request: ScrollRequest) -> (r: (Vec<ScrollResponse>, bool))
    requires
        old(state).wf(),
    ensures
        final(state).wf(),
        r.0@ == run(old(state).model(), seq![request]).0,
        final(state).model() == run(old(state).model(), seq![request]).1,
        r.0@.len() == request_size(request),
        r.1 == exists|i: int| 0 <= i < r.0@.len() && is_change(#[trigger] r.0@[i].content),
        final(state).config == old(state).config,
        final(state).formatted_cache == old(state).formatted_cache,
        final(state).formatted_cache_width == old(state).formatted_cache_width,
{
    let ghost first = request;
    let ghost start = *state;
    let mut queue: Vec<ScrollRequest> = Vec::new();
    queue.push(request);
    proof {
        assert(queue@.subrange(0, 0) =~= Seq::<ScrollRequest>::empty());
        assert(queue_size(Seq::<ScrollRequest>::empty()) == 0);
        assert(queue_size(queue@) == request_size(first));
    }
    let mut responses: Vec<ScrollResponse> = Vec::new();
    let mut updated = false;
    assert(responses@ + run(state.model(), queue@).0 =~= run(start.model(), seq![first]).0);
    while queue.len() > 0
        invariant
            start == *old(state),
            responses@.len() + queue_size(queue@) == request_size(first),
            responses@ + run(state.model(), queue@).0 == run(start.model(), seq![first]).0,
            run(state.model(), queue@).1 == run(start.model(), seq![first]).1,
            state.wf(),
            state.config == start.config,
            state.formatted_cache == start.formatted_cache,
            state.formatted_cache_width == start.formatted_cache_width,
            updated == exists|i: int| 0 <= i < responses@.len() && is_change(#[trigger] responses@[i].content),
        decreases queue_size(queue@),
    {
        let ghost q = queue@;
        let ghost m = state.model();
        let req = queue.remove(0);
        proof {
            assert(q.drop_first() =~= queue@);
            lemma_queue_size_next(q);
        }
        let resp = apply_one(state, req, &mut queue);
        assert(queue@ == next_queue(q));
        if changes(&resp.content) {
            updated = true;
        }
        let ghost before = responses@;
        responses.push(resp);
        proof {
            assert(resp == ScrollResponse { content: step(m, req.content).1, id: req.id });
            assert(responses@ + run(state.model(), queue@).0 =~= before + run(m, q).0);
            if updated {
                if is_change(resp.content) {
                    assert(is_change(responses@[before.len() as int].content));
                } else {
                    let i = choose|i: int| 0 <= i < before.len() && is_change(#[trigger] before[i].content);
                    assert(is_change(responses@[i].content));
                }
            } else {
                assert forall|i: int| 0 <= i < responses@.len() implies !is_change(#[trigger] responses@[i].content) by {
                    if i < before.len() {
                        assert(responses@[i] == before[i]);
                    }
                }
            }
        }
    }
    assert(responses@ =~= run(start.model(), seq![first]).0);
    (responses, updated)
}

/// What goes back for a whole request: nothing for no response, a single response as it is,
/// and several in one batch under the id of the first.
pub fn shape(responses: Vec<ScrollResponse>) -> (r: Option<ScrollResponse>)
    ensures
        responses@.len() == 0 ==> r is None,
        responses@.len() == 1 ==> r == Some(responses@[0]),
        responses@.len() > 1 ==> r is Some && r->0.id == responses@[0].id && r->0.content is Multiple
            && r->0.content->responses@ == responses@.map_values(|x: ScrollResponse| x.content),
{
    let n = responses.len();
    if n == 0 {
        return None;
    }
    let mut responses = responses;
    if n == 1 {
        return responses.pop();
    }
    let ghost all = responses@;
    let id = responses[0].id;
    let mut contents: Vec<ScrollResponseVariant> = Vec::new();
    while responses.len() > 0
        invariant
            contents@.len() + responses@.len() == all.len(),
            responses@ == all.skip(contents@.len() as int),
            contents@ == all.map_values(|x: ScrollResponse| x.content).take(contents@.len() as int),
        decreases responses@.len(),
    {
        let x = responses.remove(0);
        contents.push(x.content);
        assert(responses@ =~= all.skip(contents@.len() as int));
        assert(contents@ =~= all.map_values(|x: ScrollResponse| x.content).take(contents@.len() as int));
    }
    assert(contents@ =~= all.map_values(|x: ScrollResponse| x.content));
    Some(ScrollResponse::new(id, ScrollResponseVariant::Multiple { responses: contents }))
}

/// Handles one inbound request: runs it to completion, lays the buffer out again once at
/// `width` if anything changed, and shapes the responses into what goes back. The flag tells
/// the caller to redraw, once for the whole request.
pub fn handle_request(state: &mut State, request: ScrollRequest, width: u32) -> (r: (
    Option<ScrollResponse>,
    bool,
))
    requires
        old(state).wf(),
    ensures
        final(state).wf(),
        final(state).model() == run(old(state).model(), seq![request]).1,
        r.1 == exists|i: int|
            0 <= i < run(old(state).model(), seq![request]).0.len()
                && is_change(#[trigger] run(old(state).model(), seq![request]).0[i].content),
        ({
            let rs = run(old(state).model(), seq![request]).0;
            &&& rs.len() >= 1
            &&& rs.len() == 1 ==> r.0 == Some(rs[0])
            &&& rs.len() > 1 ==> r.0 is Some && r.0->0.id == rs[0].id && r.0->0.content is Multiple
                && r.0->0.content->responses@ == rs.map_values(|x: ScrollResponse| x.content)
        }),
        r.0 is Some && r.0->0.id == request.id,
        !r.1 || width == 0 ==> final(state).formatted_cache == old(state).formatted_cache,
        !r.1 || width == 0 ==> final(state).formatted_cache_width == old(state).formatted_cache_width,
        r.1 && width > 0 ==> final(state).formatted_cache_width == width,
        r.1 && width > 0 ==> lines_view(final(state).formatted_cache@) == layout(
            records(final(state).entries@),
            width as nat,
            final(state).config,
        ),
        final(state).config == old(state).config,
{
    let ghost first = request;
    let ghost m = state.model();
    let (responses, updated) = process(state, request);
    proof { lemma_run_first(m, first); }
    if updated {
        state.format(width);
    }
    (shape(responses), updated)
}

/// Over any run of requests the retention bound holds and the count of skipped positions never
/// goes down.
pub proof fn lemma_run_keeps_bound(m: BufferModel, queue: Seq<ScrollRequest>)
    requires
        m.records.len() <= m.max_entries,
    ensures
        run(m, queue).1.records.len() <= m.max_entries,
        run(m, queue).1.max_entries == m.max_entries,
        run(m, queue).1.skip >= m.skip,
    decreases queue_size(queue),
{
    if queue.len() > 0 {
        let m2 = step(m, queue[0].content).0;
        match queue[0].content {
            ScrollRequestVariant::RemoveEntry { uid } => {
                if has_uid(m.records, uid) {
                    let i = uid_index(m.records, uid);
                    assert(0 <= i < m.records.len());
                }
            },
            _ => {},
        }
        assert(m2.records.len() <= m2.max_entries);
        lemma_queue_size_next(queue);
        lemma_run_keeps_bound(m2, next_queue(queue));
    }
}

/// The first response of a run answers the request at the front of the queue.
pub proof fn lemma_run_first(m: BufferModel, request: ScrollRequest)
    ensures
        run(m, seq![request]).0.len() >= 1,
        run(m, seq![request]).0[0] == (ScrollResponse { content: step(m, request.content).1, id: request.id }),
{
    let q = seq![request];
    lemma_queue_size_next(q);
    assert(q[0] == request);
}

/// A batch of two additions that both succeed is answered with the acknowledgement of the
/// batch first, then one creation per addition in the batch's order, with consecutive uids.
pub proof fn lemma_batch_of_two_adds(m: BufferModel, batch: ScrollRequest, a1: ScrollRequest, a2: ScrollRequest)
    requires
        batch.content is Multiple,
        batch.content->requests@ == seq![a1, a2],
        a1.content is AddEntry,
        a2.content is AddEntry,
        step(m, a1.content).1 is Created,
        step(step(m, a1.content).0, a2.content).1 is Created,
    ensures
        ({
            let rs = run(m, seq![batch]).0;
            &&& rs.len() == 3
            &&& rs[0] == ScrollResponse { content: ScrollResponseVariant::Recieved, id: batch.id }
            &&& rs[1] == ScrollResponse { content: ScrollResponseVariant::Created { uid: (m.last_uid + 1) as u32 }, id: a1.id }
            &&& rs[2] == ScrollResponse { content: ScrollResponseVariant::Created { uid: (m.last_uid + 2) as u32 }, id: a2.id }
        }),
{
    let q0 = seq![batch];
    lemma_queue_size_next(q0);
    let q1 = next_queue(q0);
    assert(q1 =~= seq![a1, a2]);
    lemma_queue_size_next(q1);
    let q2 = next_queue(q1);
    assert(q2 =~= seq![a2]);
    lemma_queue_size_next(q2);
    let q3 = next_queue(q2);
    assert(q3 =~= Seq::<ScrollRequest>::empty());
    let m1 = step(m, a1.content).0;
    let m2 = step(m1, a2.content).0;
    assert(run(m2, q3).0 =~= Seq::<ScrollResponse>::empty());
    assert(run(m1, q2).0 =~= seq![ScrollResponse { content: step(m1, a2.content).1, id: a2.id }]);
    assert(run(m, q1).0 =~= seq![
        ScrollResponse { content: step(m, a1.content).1, id: a1.id },
        ScrollResponse { content: step(m1, a2.content).1, id: a2.id },
    ]);
    assert(run(m, q0).0 =~= seq![ScrollResponse { content: ScrollResponseVariant::Recieved, id: batch.id }] + run(m, q1).0);
}

/// Over any run of requests, every uid handed out is greater than all uids handed out before
/// it in the run and than the last one handed out before the run.
pub proof fn lemma_run_uids_increase(m: BufferModel, queue: Seq<ScrollRequest>)
    ensures
        run(m, queue).1.last_uid >= m.last_uid,
        forall|i: int| 0 <= i < run(m, queue).0.len() && (#[trigger] run(m, queue).0[i]).content is Created
            ==> m.last_uid < run(m, queue).0[i].content->uid <= run(m, queue).1.last_uid,
        forall|i: int, j: int|
            0 <= i < j < run(m, queue).0.len() && (#[trigger] run(m, queue).0[i]).content is Created
                && (#[trigger] run(m, queue).0[j]).content is Created
                ==> run(m, queue).0[i].content->uid < run(m, queue).0[j].content->uid,
    decreases queue_size(queue),
{
    if queue.len() > 0 {
        let (m2, c) = step(m, queue[0].content);
        lemma_queue_size_next(queue);
        lemma_run_uids_increase(m2, next_queue(queue));
        let rest = run(m2, next_queue(queue)).0;
        let rs = run(m, queue).0;
        assert(rs == seq![ScrollResponse { content: c, id: queue[0].id }] + rest);
        assert(m2.last_uid >= m.last_uid);
        assert(c is Created ==> c->uid == m2.last_uid && m2.last_uid == m.last_uid + 1);
        assert forall|i: int| 0 <= i < rs.len() && (#[trigger] rs[i]).content is Created
            implies m.last_uid < rs[i].content->uid <= run(m, queue).1.last_uid by {
            if i > 0 {
                assert(rs[i] == rest[i - 1]);
            }
        }
        assert forall|i: int, j: int|
            0 <= i < j < rs.len() && (#[trigger] rs[i]).content is Created && (#[trigger] rs[j]).content is Created
            implies rs[i].content->uid < rs[j].content->uid by {
            assert(rs[j] == rest[j - 1]);
            if i > 0 {
                assert(rs[i] == rest[i - 1]);
            }
        }
    }
}

} // verus!
