//! The requests that wait for their response: who was asked, until when an
//! answer is waited for, and the answer once it is there.

use crate::assoc::{
    entries_map, keys_distinct, lemma_entries_map_distinct, lemma_entries_map_domain,
    lemma_entries_map_push, lemma_entries_map_remove, lemma_entries_map_update,
};
use crate::errors::Error;
use crate::structures::{Endpoint, Message, MessageView, Packet, PacketView};
use crate::text::same_text;
use vstd::prelude::*;

verus! {

/// How long a response is waited for, in milliseconds.
pub const RESPONSE_TIMEOUT: u64 = 5000;

/// A request that waits for its response.
pub struct Transaction {
    /// The identifier of the exchange.
    pub transaction_id: String,
    /// The endpoint that the request went to.
    pub expected: Endpoint,
    /// The time, in milliseconds, after which no response is waited for.
    pub deadline: u64,
    /// The response, once it has come.
    pub response: Option<Packet>,
}

/// What the table keeps of one request.
pub struct TransactionView {
    pub expected: Endpoint,
    pub deadline: u64,
    pub response: Option<PacketView>,
}

impl TransactionView {
    /// Whether the response, if there is one, is a response and belongs to
    /// the exchange `id`.
    pub open spec fn answers(self, id: Seq<char>) -> bool {
        self.response matches Some(packet) ==> packet.transaction_id == id
            && packet.message is Response
    }
}

/// Whether each response that the table holds belongs to its exchange.
pub open spec fn responses_match(table: Map<Seq<char>, TransactionView>) -> bool {
    forall|id: Seq<char>| #[trigger] table.contains_key(id) ==> table[id].answers(id)
}

/// The deadline of a request sent at `now`.
pub open spec fn deadline_after(now: u64) -> u64 {
    if now + RESPONSE_TIMEOUT > u64::MAX {
        u64::MAX
    } else {
        (now + RESPONSE_TIMEOUT) as u64
    }
}

/// What a caller who waits for a response learns at one look.
pub enum WaitStatus {
    /// Nothing yet: look again.
    Pending,
    /// The response, and the endpoint it came from.
    Response(Packet, Endpoint),
    /// The deadline has passed.
    Timeout,
    /// The node is shutting down.
    Canceled,
    /// No request with this identifier is waiting.
    Unknown,
}

/// What one look at a waiting request gives, and the table that it leaves:
/// shutdown goes before a response, and a response before the deadline;
/// whatever ends the wait takes the request out of the table.
pub open spec fn wait_outcome(
    table: Map<Seq<char>, TransactionView>,
    id: Seq<char>,
    is_running: bool,
    now: u64,
) -> (WaitStatusView, Map<Seq<char>, TransactionView>) {
    if !table.contains_key(id) {
        (WaitStatusView::Unknown, table)
    } else if !is_running {
        (WaitStatusView::Canceled, table.remove(id))
    } else if table[id].response is Some {
        (WaitStatusView::Response(table[id].response->0, table[id].expected), table.remove(id))
    } else if now > table[id].deadline {
        (WaitStatusView::Timeout, table.remove(id))
    } else {
        (WaitStatusView::Pending, table)
    }
}

/// [`WaitStatus`] over views.
pub enum WaitStatusView {
    Pending,
    Response(PacketView, Endpoint),
    Timeout,
    Canceled,
    Unknown,
}

impl View for WaitStatus {
    type V = WaitStatusView;

    open spec fn view(&self) -> WaitStatusView {
        match self {
            WaitStatus::Pending => WaitStatusView::Pending,
            WaitStatus::Response(packet, source) => WaitStatusView::Response(packet@, *source),
            WaitStatus::Timeout => WaitStatusView::Timeout,
            WaitStatus::Canceled => WaitStatusView::Canceled,
            WaitStatus::Unknown => WaitStatusView::Unknown,
        }
    }
}

/// What the delivery of a response does: the table that it leaves, or why
/// the response is discarded.
pub open spec fn deliver_outcome(
    table: Map<Seq<char>, TransactionView>,
    packet: PacketView,
    source: Endpoint,
) -> Result<Map<Seq<char>, TransactionView>, Error> {
    let id = packet.transaction_id;
    if !(packet.message is Response) || !table.contains_key(id) || table[id].response is Some {
        Err(Error::UnknownTransaction)
    } else if table[id].expected != source {
        Err(Error::UnexpectedSource)
    } else {
        Ok(table.insert(id, TransactionView { response: Some(packet), ..table[id] }))
    }
}

/// A response that a caller gets from a table whose responses match is a
/// response, carries the identifier that was waited for, and is handed
/// over with the endpoint that the request went to.
pub proof fn lemma_response_matches_request(
    table: Map<Seq<char>, TransactionView>,
    id: Seq<char>,
    is_running: bool,
    now: u64,
)
    requires
        responses_match(table),
    ensures
        wait_outcome(table, id, is_running, now).0 matches WaitStatusView::Response(
            packet,
            source,
        ) ==> packet.transaction_id == id && packet.message is Response && table.contains_key(id)
            && source == table[id].expected,
        responses_match(wait_outcome(table, id, is_running, now).1),
{
    if table.contains_key(id) {
        assert(table[id].answers(id));
    }
    let after = wait_outcome(table, id, is_running, now).1;
    assert forall|other: Seq<char>| #[trigger] after.contains_key(other) implies after[other].answers(
        other,
    ) by {
        assert(table.contains_key(other));
    }
}

/// Once the node is shutting down, every wait for a request that is in
/// the table ends as canceled, whatever else holds of the request.
pub proof fn lemma_shutdown_cancels(table: Map<Seq<char>, TransactionView>, id: Seq<char>, now: u64)
    requires
        table.contains_key(id),
    ensures
        wait_outcome(table, id, false, now).0 == WaitStatusView::Canceled,
        !wait_outcome(table, id, false, now).1.contains_key(id),
{
}

/// A response is accepted only from the endpoint that its request went to,
/// and a table whose responses match stays so.
pub proof fn lemma_deliver_keeps_match(
    table: Map<Seq<char>, TransactionView>,
    packet: PacketView,
    source: Endpoint,
)
    requires
        responses_match(table),
    ensures
        deliver_outcome(table, packet, source) matches Ok(after) ==> responses_match(after)
            && source == table[packet.transaction_id].expected,
{
    if let Ok(after) = deliver_outcome(table, packet, source) {
        assert forall|other: Seq<char>| #[trigger] after.contains_key(other) implies after[other].answers(
            other,
        ) by {
            if other != packet.transaction_id {
                assert(table.contains_key(other));
            }
        }
    }
}

/// The entries of a table as what the contracts speak of.
pub open spec fn transaction_views(entries: Seq<Transaction>) -> Seq<(Seq<char>, TransactionView)> {
    Seq::new(
        entries.len(),
        |i: int|
            (
                entries[i].transaction_id@,
                TransactionView {
                    expected: entries[i].expected,
                    deadline: entries[i].deadline,
                    response: match entries[i].response {
                        Some(packet) => Some(packet@),
                        None => None,
                    },
                },
            ),
    )
}

/// The requests of a node that wait for their response.
pub struct TransactionTable {
    entries: Vec<Transaction>,
}

impl View for TransactionTable {
    type V = Map<Seq<char>, TransactionView>;

    closed spec fn view(&self) -> Map<Seq<char>, TransactionView> {
        entries_map(transaction_views(self.entries@))
    }
}

impl TransactionTable {
    #[verifier::type_invariant]
    spec fn well_formed(&self) -> bool {
        &&& keys_distinct(transaction_views(self.entries@))
        &&& forall|i: int|
            0 <= i < self.entries@.len() ==> (#[trigger] transaction_views(self.entries@)[i]).1.answers(
                transaction_views(self.entries@)[i].0,
            )
    }

    /// A table without a request.
    pub fn new() -> (table: Self)
        ensures
            table@ == Map::<Seq<char>, TransactionView>::empty(),
            responses_match(table@),
    {
        let table = TransactionTable { entries: Vec::new() };
        assert(transaction_views(table.entries@) =~= Seq::empty());
        table
    }

    /// Where the request `transaction_id` is, if it is in the table.
    #[verifier::loop_isolation(false)]
    fn position(&self, transaction_id: &str) -> (r: Option<usize>)
        ensures
            match r {
                Some(i) => i < self.entries@.len() && transaction_views(self.entries@)[i as int].0
                    == transaction_id@ && self@.contains_key(transaction_id@) && self@[transaction_id@]
                    == transaction_views(self.entries@)[i as int].1,
                None => !self@.contains_key(transaction_id@) && forall|i: int|
                    0 <= i < self.entries@.len() ==> (#[trigger] transaction_views(
                        self.entries@,
                    )[i]).0 != transaction_id@,
            },
            responses_match(self@),
            self@.dom().finite(),
    {
        proof {
            use_type_invariant(self);
            lemma_entries_map_domain(transaction_views(self.entries@), transaction_id@);
            lemma_entries_map_distinct(transaction_views(self.entries@));
            self.lemma_responses_match();
        }
        let ghost views = transaction_views(self.entries@);
        let mut i: usize = 0;
        while i < self.entries.len()
            invariant
                i <= self.entries@.len(),
                views == transaction_views(self.entries@),
                forall|j: int| 0 <= j < i ==> (#[trigger] views[j]).0 != transaction_id@,
            decreases self.entries@.len() - i,
        {
            if same_text(self.entries[i].transaction_id.as_str(), transaction_id) {
                assert(views[i as int].0 == transaction_id@);
                return Some(i);
            }
            assert(views[i as int].0 == self.entries@[i as int].transaction_id@);
            i = i + 1;
        }
        None
    }

    proof fn lemma_responses_match(&self)
        requires
            self.well_formed(),
        ensures
            responses_match(self@),
    {
        let views = transaction_views(self.entries@);
        lemma_entries_map_distinct(views);
        assert forall|id: Seq<char>| #[trigger] self@.contains_key(id) implies self@[id].answers(
            id,
        ) by {
            lemma_entries_map_domain(views, id);
            let i = choose|i: int| 0 <= i < views.len() && (#[trigger] views[i]).0 == id;
            assert(views[i].1.answers(views[i].0));
        }
    }

    /// The number of requests that wait.
    pub fn len(&self) -> (n: usize)
        ensures
            n == self@.len(),
            self@.dom().finite(),
            responses_match(self@),
    {
        proof {
            use_type_invariant(self);
            lemma_entries_map_distinct(transaction_views(self.entries@));
            lemma_entries_map_domain(transaction_views(self.entries@), Seq::empty());
            self.lemma_responses_match();
        }
        self.entries.len()
    }

    /// Whether the request `transaction_id` is in the table.
    pub fn contains(&self, transaction_id: &str) -> (r: bool)
        ensures
            r == self@.contains_key(transaction_id@),
            responses_match(self@),
    {
        self.position(transaction_id).is_some()
    }

    /// Notes that a request with the identifier `transaction_id` went to
    /// `endpoint` at the time `now`: its response is waited for until 5000
    /// milliseconds later. An earlier request with this identifier is
    /// forgotten.
    pub fn register(&mut self, transaction_id: &str, endpoint: Endpoint, now: u64)
        ensures
            final(self)@ == old(self)@.insert(
                transaction_id@,
                TransactionView {
                    expected: endpoint,
                    deadline: deadline_after(now),
                    response: None,
                },
            ),
            responses_match(final(self)@),
    {
        proof {
            use_type_invariant(&*self);
        }
        let ghost before = transaction_views(self.entries@);
        let deadline = if now > u64::MAX - RESPONSE_TIMEOUT {
            u64::MAX
        } else {
            now + RESPONSE_TIMEOUT
        };
        let entry = Transaction {
            transaction_id: transaction_id.to_owned(),
            expected: endpoint,
            deadline,
            response: None,
        };
        let ghost view = TransactionView {
            expected: endpoint,
            deadline: deadline_after(now),
            response: None,
        };
        let found = self.position(transaction_id);
        let mut entries: Vec<Transaction> = Vec::new();
        assert(transaction_views(entries@) =~= Seq::empty());
        std::mem::swap(&mut self.entries, &mut entries);
        match found {
            Some(i) => {
                proof {
                    lemma_entries_map_update(before, i as int, view);
                }
                entries.set(i, entry);
                assert(transaction_views(entries@) =~= before.update(
                    i as int,
                    (transaction_id@, view),
                ));
            },
            None => {
                proof {
                    lemma_entries_map_push(before, transaction_id@, view);
                }
                entries.push(entry);
                assert(transaction_views(entries@) =~= before.push((transaction_id@, view)));
            },
        }
        self.entries = entries;
        proof {
            self.lemma_responses_match();
        }
    }

    /// Hands the response `packet`, which came from `source`, to the request
    /// that waits for it.
    ///
    /// The response is discarded with `UnknownTransaction` where no request
    /// with its transaction identifier waits for a response, and with
    /// `UnexpectedSource` where the request went to another endpoint; the
    /// table is then unchanged.
    pub fn deliver(&mut self, packet: Packet, source: Endpoint) -> (r: Result<(), Error>)
        ensures
            match r {
                Ok(()) => deliver_outcome(old(self)@, packet@, source) == Ok::<
                    Map<Seq<char>, TransactionView>,
                    Error,
                >(final(self)@),
                Err(e) => deliver_outcome(old(self)@, packet@, source) == Err::<
                    Map<Seq<char>, TransactionView>,
                    Error,
                >(e) && final(self)@ == old(self)@,
            },
            responses_match(final(self)@),
    {
        proof {
            use_type_invariant(&*self);
            self.lemma_responses_match();
        }
        let ghost before = transaction_views(self.entries@);
        let is_response = match &packet.message {
            Message::Response(_) => true,
            Message::Request(_) => false,
        };
        if !is_response {
            return Err(Error::UnknownTransaction);
        }
        let i = match self.position(packet.transaction_id.as_str()) {
            Some(i) => i,
            None => {
                return Err(Error::UnknownTransaction);
            },
        };
        assert(before[i as int].1.response is Some == self.entries@[i as int].response is Some);
        if self.entries[i].response.is_some() {
            return Err(Error::UnknownTransaction);
        }
        if self.entries[i].expected != source {
            return Err(Error::UnexpectedSource);
        }
        let ghost view = TransactionView { response: Some(packet@), ..before[i as int].1 };
        let entry = Transaction {
            transaction_id: packet.transaction_id.clone(),
            expected: self.entries[i].expected,
            deadline: self.entries[i].deadline,
            response: Some(packet),
        };
        let mut entries: Vec<Transaction> = Vec::new();
        assert(transaction_views(entries@) =~= Seq::empty());
        std::mem::swap(&mut self.entries, &mut entries);
        proof {
            lemma_entries_map_update(before, i as int, view);
        }
        entries.set(i, entry);
        assert(transaction_views(entries@) =~= before.update(i as int, (before[i as int].0, view)));
        self.entries = entries;
        proof {
            self.lemma_responses_match();
        }
        Ok(())
    }

    /// One look of a caller who waits for the response to the request
    /// `transaction_id`, at the time `now`; `is_running` is false once the
    /// node is shutting down.
    pub fn wait_for_response(&mut self, transaction_id: &str, is_running: bool, now: u64) -> (r:
        WaitStatus)
        ensures
            (r@, final(self)@) == wait_outcome(old(self)@, transaction_id@, is_running, now),
            responses_match(final(self)@),
            r matches WaitStatus::Response(packet, source) ==> packet@.transaction_id
                == transaction_id@ && packet@.message is Response && source
                == old(self)@[transaction_id@].expected,
    {
        proof {
            use_type_invariant(&*self);
            self.lemma_responses_match();
            lemma_response_matches_request(self@, transaction_id@, is_running, now);
        }
        let ghost before = transaction_views(self.entries@);
        let i = match self.position(transaction_id) {
            Some(i) => i,
            None => {
                return WaitStatus::Unknown;
            },
        };
        assert(before[i as int].1.response is Some == self.entries@[i as int].response is Some);
        let waiting = self.entries[i].response.is_none();
        if is_running && waiting && now <= self.entries[i].deadline {
            return WaitStatus::Pending;
        }
        let mut entries: Vec<Transaction> = Vec::new();
        assert(transaction_views(entries@) =~= Seq::empty());
        std::mem::swap(&mut self.entries, &mut entries);
        proof {
            lemma_entries_map_remove(before, i as int);
        }
        let entry = entries.remove(i);
        assert(transaction_views(entries@) =~= before.remove(i as int));
        self.entries = entries;
        proof {
            self.lemma_responses_match();
        }
        if !is_running {
            WaitStatus::Canceled
        } else {
            match entry.response {
                Some(packet) => WaitStatus::Response(packet, entry.expected),
                None => WaitStatus::Timeout,
            }
        }
    }
}

} // verus!
