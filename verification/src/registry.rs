//! The streams that are under way, so that one can be stopped by its name.

use vstd::hash_map::StringHashMap;
use vstd::prelude::*;

verus! {

/// The streams under way: what stops each of them, by the name of the stream.
/// Each stream has a ticket of its own, so that its end is told from that of
/// another stream of the same name.
#[verifier::reject_recursive_types(H)]
pub struct Cancels<H> {
    handles: StringHashMap<(u64, H)>,
    issued: u64,
}

impl<H> View for Cancels<H> {
    type V = Map<Seq<char>, (u64, H)>;

    closed spec fn view(&self) -> Map<Seq<char>, (u64, H)> {
        self.handles@
    }
}

/// The streams under way after one has started.
pub open spec fn after_start<H>(
    streams: Map<Seq<char>, (u64, H)>,
    id: Seq<char>,
    ticket: u64,
    handle: H,
) -> Map<Seq<char>, (u64, H)> {
    streams.insert(id, (ticket, handle))
}

/// The streams under way after the one with this name and ticket has ended. Where
/// another has taken its name, that one stays.
pub open spec fn after_end<H>(
    streams: Map<Seq<char>, (u64, H)>,
    id: Seq<char>,
    ticket: u64,
) -> Map<Seq<char>, (u64, H)> {
    if streams.contains_key(id) && streams[id].0 == ticket {
        streams.remove(id)
    } else {
        streams
    }
}

impl<H> Cancels<H> {
    /// How many tickets were given out.
    pub closed spec fn issued(&self) -> u64 {
        self.issued
    }

    #[verifier::type_invariant]
    spec fn tickets_were_issued(self) -> bool {
        forall|id: Seq<char>| #[trigger]
            self.handles@.contains_key(id) ==> self.handles@[id].0 < self.issued
    }

    /// No stream is under way.
    pub fn new() -> (cancels: Self)
        ensures
            cancels@ == Map::<Seq<char>, (u64, H)>::empty(),
            cancels.issued() == 0,
    {
        Cancels { handles: StringHashMap::new(), issued: 0 }
    }

    /// A stream starts, and is given a ticket that no other stream under way has.
    /// It takes the place of one of the same name. There is no ticket where all
    /// were given out.
    pub fn started(&mut self, id: String, handle: H) -> (ticket: Option<u64>)
        ensures
            match ticket {
                Some(t) => {
                    &&& t == old(self).issued()
                    &&& final(self).issued() == t + 1
                    &&& final(self)@ == after_start(old(self)@, id@, t, handle)
                    &&& forall|name: Seq<char>| #[trigger]
                        old(self)@.contains_key(name) ==> old(self)@[name].0 != t
                },
                None => old(self).issued() == u64::MAX && final(self)@ == old(self)@
                    && final(self).issued() == old(self).issued(),
            },
    {
        proof {
            use_type_invariant(&*self);
        }
        if self.issued == u64::MAX {
            return None;
        }
        let ticket: u64 = self.issued;
        let mut handles = StringHashMap::new();
        std::mem::swap(&mut handles, &mut self.handles);
        handles.insert(id, (ticket, handle));
        self.issued = ticket + 1;
        self.handles = handles;
        Some(ticket)
    }

    /// The stream with this name and ticket has ended.
    pub fn ended(&mut self, id: &str, ticket: u64)
        ensures
            final(self)@ == after_end(old(self)@, id@, ticket),
            final(self).issued() == old(self).issued(),
    {
        proof {
            use_type_invariant(&*self);
        }
        let own = match self.handles.get(id) {
            Some(entry) => entry.0 == ticket,
            None => false,
        };
        if own {
            let mut handles = StringHashMap::new();
            std::mem::swap(&mut handles, &mut self.handles);
            handles.remove(id);
            self.handles = handles;
        }
    }

    /// What stops a stream, where one of that name is under way.
    pub fn to_abort(&self, id: &str) -> (handle: Option<&H>)
        ensures
            match handle {
                Some(h) => self@.contains_key(id@) && *h == self@[id@].1,
                None => !self@.contains_key(id@),
            },
    {
        match self.handles.get(id) {
            Some(entry) => Some(&entry.1),
            None => None,
        }
    }
}

/// Something that happens to the streams under way.
pub enum StreamChange<H> {
    Started { id: Seq<char>, handle: H },
    Ended { id: Seq<char>, ticket: u64 },
}

/// The streams under way, and how many tickets were given out.
pub struct Streams<H> {
    pub under_way: Map<Seq<char>, (u64, H)>,
    pub issued: nat,
}

impl<H> Streams<H> {
    /// What is under way after a change.
    pub open spec fn after(self, change: StreamChange<H>) -> Streams<H> {
        match change {
            StreamChange::Started { id, handle } => if self.issued < u64::MAX {
                Streams {
                    under_way: after_start(self.under_way, id, self.issued as u64, handle),
                    issued: self.issued + 1,
                }
            } else {
                self
            },
            StreamChange::Ended { id, ticket } => Streams {
                under_way: after_end(self.under_way, id, ticket),
                issued: self.issued,
            },
        }
    }

    /// What is under way after a run of changes.
    pub open spec fn after_all(self, changes: Seq<StreamChange<H>>) -> Streams<H>
        decreases changes.len(),
    {
        if changes.len() == 0 {
            self
        } else {
            self.after_all(changes.drop_last()).after(changes.last())
        }
    }
}

/// Tells whether a change leaves the stream under `id` with this ticket alone: it
/// is not its own end, and no other stream takes its name.
pub open spec fn spares<H>(change: StreamChange<H>, id: Seq<char>, ticket: u64) -> bool {
    match change {
        StreamChange::Started { id: other, handle } => other != id,
        StreamChange::Ended { id: other, ticket: ended } => other != id || ended != ticket,
    }
}

/// The end of one stream never removes the entry of another, be it of the same
/// name, and removes its own.
pub proof fn law_an_end_touches_its_own_entry<H>(
    streams: Map<Seq<char>, (u64, H)>,
    id: Seq<char>,
    ticket: u64,
    other: Seq<char>,
)
    ensures
        streams.contains_key(other) && (other != id || streams[other].0 != ticket) ==> after_end(
            streams,
            id,
            ticket,
        ).contains_key(other) && after_end(streams, id, ticket)[other] == streams[other],
        !(after_end(streams, id, ticket).contains_key(id) && after_end(streams, id, ticket)[id].0
            == ticket),
{
}

/// A stream can be stopped from its start until its own end, unless another takes
/// its name: whatever streams start and end meanwhile, what stops it stays.
pub proof fn law_a_stream_can_be_stopped_until_its_end<H>(
    streams: Streams<H>,
    id: Seq<char>,
    handle: H,
    changes: Seq<StreamChange<H>>,
)
    requires
        streams.issued < u64::MAX,
        forall|i: int|
            0 <= i < changes.len() ==> spares(#[trigger] changes[i], id, streams.issued as u64),
    ensures
        ({
            let later = streams.after(StreamChange::Started { id, handle }).after_all(changes);
            later.under_way.contains_key(id) && later.under_way[id] == (
                streams.issued as u64,
                handle,
            )
        }),
    decreases changes.len(),
{
    if changes.len() > 0 {
        assert forall|i: int| 0 <= i < changes.drop_last().len() implies spares(
            #[trigger] changes.drop_last()[i],
            id,
            streams.issued as u64,
        ) by {
            assert(spares(changes[i], id, streams.issued as u64));
        }
        assert(spares(changes[changes.len() - 1], id, streams.issued as u64));
        law_a_stream_can_be_stopped_until_its_end(streams, id, handle, changes.drop_last());
    }
}

/// Whatever streams start and end, every ticket under way was given out, and to no
/// two streams the same one.
pub proof fn law_tickets_are_unique<H>(changes: Seq<StreamChange<H>>)
    ensures
        ({
            let none = Streams { under_way: Map::<Seq<char>, (u64, H)>::empty(), issued: 0 };
            let now = none.after_all(changes);
            &&& forall|id: Seq<char>| #[trigger]
                now.under_way.contains_key(id) ==> now.under_way[id].0 < now.issued
            &&& forall|a: Seq<char>, b: Seq<char>|
                #![trigger now.under_way.contains_key(a), now.under_way.contains_key(b)]
                now.under_way.contains_key(a) && now.under_way.contains_key(b)
                    && now.under_way[a].0 == now.under_way[b].0 ==> a == b
        }),
    decreases changes.len(),
{
    if changes.len() > 0 {
        law_tickets_are_unique(changes.drop_last());
        let none = Streams { under_way: Map::<Seq<char>, (u64, H)>::empty(), issued: 0 };
        let before = none.after_all(changes.drop_last());
        let now = none.after_all(changes);
        assert(now == before.after(changes.last()));
        assert forall|id: Seq<char>| #[trigger] now.under_way.contains_key(id) implies now.under_way[id].0
            < now.issued by {
            assert(before.under_way.contains_key(id) ==> before.under_way[id].0 < before.issued);
        }
        assert forall|a: Seq<char>, b: Seq<char>|
            #![trigger now.under_way.contains_key(a), now.under_way.contains_key(b)]
            now.under_way.contains_key(a) && now.under_way.contains_key(b)
                && now.under_way[a].0 == now.under_way[b].0 implies a == b by {
            assert(before.under_way.contains_key(a) ==> before.under_way[a].0 < before.issued);
            assert(before.under_way.contains_key(b) ==> before.under_way[b].0 < before.issued);
        }
    }
}

/// The start of a stream adds its own entry, under its name and with what stops it,
/// and touches no stream of another name.
pub proof fn law_a_start_touches_its_own_entry<H>(
    streams: Map<Seq<char>, (u64, H)>,
    id: Seq<char>,
    ticket: u64,
    handle: H,
    other: Seq<char>,
)
    requires
        other != id,
    ensures
        after_start(streams, id, ticket, handle).contains_key(id),
        after_start(streams, id, ticket, handle)[id] == (ticket, handle),
        after_start(streams, id, ticket, handle).contains_key(other) <==> streams.contains_key(
            other,
        ),
        streams.contains_key(other) ==> after_start(streams, id, ticket, handle)[other]
            == streams[other],
{
}

/// A stream that has started and ended leaves nothing behind: what is under way is
/// what would be had the name been free all along.
pub proof fn law_an_end_undoes_its_start<H>(
    streams: Map<Seq<char>, (u64, H)>,
    id: Seq<char>,
    ticket: u64,
    handle: H,
)
    ensures
        after_end(after_start(streams, id, ticket, handle), id, ticket) == streams.remove(id),
{
    assert(streams.insert(id, (ticket, handle)).remove(id) == streams.remove(id));
}

} // verus!
