//! The IPC broker's decisions: review workers announce which patch
//! implements a symbol, and ask the broker about symbols; the broker keeps
//! the latest announcement of each symbol and answers what it knows.

use vstd::prelude::*;

use crate::text::{push_str, string_of};

verus! {

/// One line of the broker protocol.
#[derive(Debug, Clone)]
pub struct IpcMessage {
    pub patch_id: String,
    pub event: IpcEvent,
}

#[derive(Debug, Clone)]
pub enum IpcEvent {
    /// Which patch implements `symbol`?
    Request { symbol: String },
    /// The sending patch implements `symbol`.
    Response { symbol: String, implementation_details: Option<String> },
    /// The sending patch implements `symbol`, told to everyone.
    Broadcast { symbol: String },
}

/// The symbol an event is about.
pub open spec fn event_symbol(e: IpcEvent) -> Seq<char> {
    match e {
        IpcEvent::Request { symbol } => symbol@,
        IpcEvent::Response { symbol, .. } => symbol@,
        IpcEvent::Broadcast { symbol } => symbol@,
    }
}

/// The event tells which patch implements its symbol.
pub open spec fn is_announcement(e: IpcEvent) -> bool {
    e is Response || e is Broadcast
}

/// The broker's knowledge after `msg`: an announcement records its sender's
/// patch for the symbol (replacing an earlier one), a request changes nothing.
pub open spec fn cache_after(cache: Map<Seq<char>, Seq<char>>, msg: IpcMessage) -> Map<
    Seq<char>,
    Seq<char>,
> {
    if is_announcement(msg.event) {
        cache.insert(event_symbol(msg.event), msg.patch_id@)
    } else {
        cache
    }
}

/// The patch the broker names in reply to `msg`: for a request about a
/// symbol it knows, the patch recorded for it; nothing otherwise.
pub open spec fn reply_patch(cache: Map<Seq<char>, Seq<char>>, msg: IpcMessage) -> Option<
    Seq<char>,
> {
    if msg.event is Request && cache.contains_key(event_symbol(msg.event)) {
        Some(cache[event_symbol(msg.event)])
    } else {
        None
    }
}

/// `reply` is the broker's answer that `patch` implements `symbol`.
pub open spec fn is_cache_reply(reply: IpcMessage, symbol: Seq<char>, patch: Seq<char>) -> bool {
    &&& reply.patch_id@ == patch
    &&& reply.event matches IpcEvent::Response { symbol: s, implementation_details: Some(d) }
    &&& s@ == symbol
    &&& d@ == "Broker cache: Found in Patch "@ + patch
}

/// What the broker knows: for each symbol, the patch announced last.
pub struct BrokerCache {
    entries: Vec<(String, String)>,
}

pub open spec fn key_at(es: Seq<(String, String)>, i: int, k: Seq<char>) -> bool {
    0 <= i < es.len() && es[i].0@ == k
}

/// No symbol occurs twice among the entries.
pub open spec fn unique_keys(es: Seq<(String, String)>) -> bool {
    forall|i: int, j: int| 0 <= i < j < es.len() ==> es[i].0@ != es[j].0@
}

/// The entries read as a map from symbol to patch.
pub open spec fn entries_map(es: Seq<(String, String)>) -> Map<Seq<char>, Seq<char>> {
    Map::new(
        |k: Seq<char>| exists|i: int| key_at(es, i, k),
        |k: Seq<char>| es[choose|i: int| key_at(es, i, k)].1@,
    )
}

proof fn lemma_entry(es: Seq<(String, String)>, i: int)
    requires
        unique_keys(es),
        0 <= i < es.len(),
    ensures
        entries_map(es).contains_key(es[i].0@),
        entries_map(es)[es[i].0@] == es[i].1@,
{
    let k = es[i].0@;
    assert(key_at(es, i, k));
    let j = choose|j: int| key_at(es, j, k);
    if j < i {
        assert(es[j].0@ != es[i].0@);
    } else if j > i {
        assert(es[i].0@ != es[j].0@);
    }
}

/// Replacing the patch of the entry at `i`, whose symbol is `k`.
proof fn lemma_entries_update(es: Seq<(String, String)>, i: int, entry: (String, String))
    requires
        unique_keys(es),
        0 <= i < es.len(),
        es[i].0@ == entry.0@,
    ensures
        unique_keys(es.update(i, entry)),
        entries_map(es.update(i, entry)) == entries_map(es).insert(entry.0@, entry.1@),
{
    let after = es.update(i, entry);
    let k0 = entry.0@;
    assert forall|a: int, b: int| 0 <= a < b < after.len() implies after[a].0@ != after[b].0@ by {
        assert(es[a].0@ != es[b].0@);
    }
    let m = entries_map(after);
    let want = entries_map(es).insert(k0, entry.1@);
    assert forall|k: Seq<char>| #[trigger] m.contains_key(k) <==> want.contains_key(k) by {
        if exists|j: int| key_at(after, j, k) {
            let j = choose|j: int| key_at(after, j, k);
            if j != i {
                assert(key_at(es, j, k));
            }
        }
        if exists|j: int| key_at(es, j, k) {
            let j = choose|j: int| key_at(es, j, k);
            assert(key_at(after, j, k));
        }
        if k == k0 {
            assert(key_at(after, i, k));
        }
    }
    assert forall|k: Seq<char>| #[trigger] m.contains_key(k) implies m[k] == want[k] by {
        let j = choose|j: int| key_at(after, j, k);
        lemma_entry(after, j);
        if j != i {
            assert(es[j] == after[j]);
            lemma_entry(es, j);
        }
    }
    assert(m =~= want);
}

/// Adding an entry for a symbol that has none.
proof fn lemma_entries_push(es: Seq<(String, String)>, entry: (String, String))
    requires
        unique_keys(es),
        !entries_map(es).contains_key(entry.0@),
    ensures
        unique_keys(es.push(entry)),
        entries_map(es.push(entry)) == entries_map(es).insert(entry.0@, entry.1@),
{
    let after = es.push(entry);
    let n = es.len() as int;
    let k0 = entry.0@;
    assert forall|a: int, b: int| 0 <= a < b < after.len() implies after[a].0@ != after[b].0@ by {
        if b == n {
            assert(key_at(es, a, after[a].0@));
        } else {
            assert(es[a].0@ != es[b].0@);
        }
    }
    let m = entries_map(after);
    let want = entries_map(es).insert(k0, entry.1@);
    assert forall|k: Seq<char>| #[trigger] m.contains_key(k) <==> want.contains_key(k) by {
        if exists|j: int| key_at(after, j, k) {
            let j = choose|j: int| key_at(after, j, k);
            if j < n {
                assert(key_at(es, j, k));
            }
        }
        if exists|j: int| key_at(es, j, k) {
            let j = choose|j: int| key_at(es, j, k);
            assert(key_at(after, j, k));
        }
        if k == k0 {
            assert(key_at(after, n, k));
        }
    }
    assert forall|k: Seq<char>| #[trigger] m.contains_key(k) implies m[k] == want[k] by {
        let j = choose|j: int| key_at(after, j, k);
        lemma_entry(after, j);
        if j < n {
            assert(es[j] == after[j]);
            lemma_entry(es, j);
        }
    }
    assert(m =~= want);
}

impl View for BrokerCache {
    type V = Map<Seq<char>, Seq<char>>;

    closed spec fn view(&self) -> Map<Seq<char>, Seq<char>> {
        entries_map(self.entries@)
    }
}

impl BrokerCache {
    #[verifier::type_invariant]
    spec fn keys_are_unique(&self) -> bool {
        unique_keys(self.entries@)
    }

    /// A broker that knows nothing.
    pub fn new() -> (r: Self)
        ensures
            r@ == Map::<Seq<char>, Seq<char>>::empty(),
    {
        let r = BrokerCache { entries: Vec::new() };
        assert(r@ =~= Map::<Seq<char>, Seq<char>>::empty());
        r
    }

    fn find(&self, symbol: &String) -> (r: Option<usize>)
        ensures
            r matches Some(i) ==> i < self.entries@.len() && self.entries@[i as int].0@ == symbol@,
            r is None ==> !self@.contains_key(symbol@),
    {
        let mut i: usize = 0;
        while i < self.entries.len()
            invariant
                i <= self.entries@.len(),
                forall|j: int| 0 <= j < i ==> self.entries@[j].0@ != symbol@,
            decreases self.entries.len() - i,
        {
            if self.entries[i].0 == *symbol {
                return Some(i);
            }
            i = i + 1;
        }
        assert(!self@.contains_key(symbol@)) by {
            if exists|j: int| key_at(self.entries@, j, symbol@) {
                let j = choose|j: int| key_at(self.entries@, j, symbol@);
                assert(self.entries@[j].0@ != symbol@);
            }
        }
        None
    }

    /// The patch recorded for `symbol`.
    pub fn lookup(&self, symbol: &String) -> (r: Option<String>)
        ensures
            r matches Some(p) ==> self@.contains_key(symbol@) && p@ == self@[symbol@],
            r is None ==> !self@.contains_key(symbol@),
    {
        proof {
            use_type_invariant(self);
        }
        match self.find(symbol) {
            Some(i) => {
                proof {
                    lemma_entry(self.entries@, i as int);
                }
                Some(self.entries[i].1.clone())
            },
            None => None,
        }
    }

    /// Records that `patch` implements `symbol`.
    pub fn record(&mut self, symbol: &String, patch: &String)
        ensures
            final(self)@ == old(self)@.insert(symbol@, patch@),
    {
        proof {
            use_type_invariant(&*self);
        }
        let found = self.find(symbol);
        let mut es: Vec<(String, String)> = Vec::new();
        std::mem::swap(&mut es, &mut self.entries);
        let ghost before = es@;
        let entry = (symbol.clone(), patch.clone());
        match found {
            Some(i) => {
                proof {
                    lemma_entries_update(before, i as int, entry);
                }
                es.set(i, entry);
            },
            None => {
                proof {
                    lemma_entries_push(before, entry);
                }
                es.push(entry);
            },
        }
        self.entries = es;
    }

    /// Handles one message: an announcement is recorded; a request about a
    /// known symbol is answered with the recorded patch.
    pub fn handle(&mut self, msg: &IpcMessage) -> (reply: Option<IpcMessage>)
        ensures
            final(self)@ == cache_after(old(self)@, *msg),
            !(msg.event is Request) ==> reply is None,
            match reply_patch(old(self)@, *msg) {
                Some(p) => reply matches Some(rep) && is_cache_reply(rep, event_symbol(msg.event), p),
                None => reply is None,
            },
    {
        match &msg.event {
            IpcEvent::Broadcast { symbol } | IpcEvent::Response { symbol, .. } => {
                self.record(symbol, &msg.patch_id);
                None
            },
            IpcEvent::Request { symbol } => {
                match self.lookup(symbol) {
                    Some(pid) => {
                        let mut details: Vec<char> = Vec::new();
                        push_str(&mut details, "Broker cache: Found in Patch ");
                        push_str(&mut details, pid.as_str());
                        Some(
                            IpcMessage {
                                patch_id: pid,
                                event: IpcEvent::Response {
                                    symbol: symbol.clone(),
                                    implementation_details: Some(string_of(&details)),
                                },
                            },
                        )
                    },
                    None => None,
                }
            },
        }
    }
}

/// The broker's knowledge after handling `msgs` in order.
pub open spec fn cache_after_all(cache: Map<Seq<char>, Seq<char>>, msgs: Seq<IpcMessage>) -> Map<
    Seq<char>,
    Seq<char>,
>
    decreases msgs.len(),
{
    if msgs.len() == 0 {
        cache
    } else {
        cache_after(cache_after_all(cache, msgs.drop_last()), msgs.last())
    }
}

/// The patch of the last announcement about `symbol` among `msgs`.
pub open spec fn last_announced(msgs: Seq<IpcMessage>, symbol: Seq<char>) -> Option<Seq<char>>
    decreases msgs.len(),
{
    if msgs.len() == 0 {
        None
    } else if is_announcement(msgs.last().event) && event_symbol(msgs.last().event) == symbol {
        Some(msgs.last().patch_id@)
    } else {
        last_announced(msgs.drop_last(), symbol)
    }
}

/// After an announcement that a patch implements a symbol, a request about
/// that symbol is answered with that patch.
pub proof fn law_request_answered_by_announcement(
    cache: Map<Seq<char>, Seq<char>>,
    announcement: IpcMessage,
    request: IpcMessage,
)
    requires
        is_announcement(announcement.event),
        request.event is Request,
        event_symbol(request.event) == event_symbol(announcement.event),
    ensures
        reply_patch(cache_after(cache, announcement), request) == Some(announcement.patch_id@),
{
}

/// A request never changes what the broker knows.
pub proof fn law_request_keeps_cache(cache: Map<Seq<char>, Seq<char>>, request: IpcMessage)
    requires
        request.event is Request,
    ensures
        cache_after(cache, request) == cache,
{
}

/// An announcement about one symbol leaves the answer about any other
/// symbol as it was.
pub proof fn law_announcement_is_local(
    cache: Map<Seq<char>, Seq<char>>,
    announcement: IpcMessage,
    request: IpcMessage,
)
    requires
        is_announcement(announcement.event),
        request.event is Request,
        event_symbol(request.event) != event_symbol(announcement.event),
    ensures
        reply_patch(cache_after(cache, announcement), request) == reply_patch(cache, request),
{
}

/// A broker started fresh answers a request about a symbol with the patch
/// of the last announcement about that symbol, and does not answer when
/// there was none.
pub proof fn law_answer_is_last_announcement(msgs: Seq<IpcMessage>, request: IpcMessage)
    requires
        request.event is Request,
    ensures
        reply_patch(cache_after_all(Map::empty(), msgs), request) == last_announced(
            msgs,
            event_symbol(request.event),
        ),
    decreases msgs.len(),
{
    if msgs.len() > 0 {
        law_answer_is_last_announcement(msgs.drop_last(), request);
    }
}

/// Over any run of messages, from any knowledge, a request about a symbol is
/// answered with the patch of the last announcement about it in the run; when
/// the run announced nothing about it, as before the run.
pub proof fn law_run_answer(
    cache: Map<Seq<char>, Seq<char>>,
    msgs: Seq<IpcMessage>,
    request: IpcMessage,
)
    requires
        request.event is Request,
    ensures
        reply_patch(cache_after_all(cache, msgs), request) == match last_announced(
            msgs,
            event_symbol(request.event),
        ) {
            Some(p) => Some(p),
            None => reply_patch(cache, request),
        },
    decreases msgs.len(),
{
    if msgs.len() > 0 {
        law_run_answer(cache, msgs.drop_last(), request);
    }
}

proof fn lemma_last_announced_holds(
    before: Seq<IpcMessage>,
    announcement: IpcMessage,
    after: Seq<IpcMessage>,
)
    requires
        is_announcement(announcement.event),
        forall|i: int|
            0 <= i < after.len() ==> !(is_announcement((#[trigger] after[i]).event) && event_symbol(
                after[i].event,
            ) == event_symbol(announcement.event)),
    ensures
        last_announced(before + seq![announcement] + after, event_symbol(announcement.event))
            == Some(announcement.patch_id@),
    decreases after.len(),
{
    let msgs = before + seq![announcement] + after;
    if after.len() == 0 {
        assert(msgs.last() == announcement);
    } else {
        let shorter = after.drop_last();
        assert(msgs.drop_last() =~= before + seq![announcement] + shorter);
        assert(msgs.last() == after[after.len() - 1]);
        lemma_last_announced_holds(before, announcement, shorter);
    }
}

/// Once a patch announces a symbol, every later request about it is answered
/// with that patch, until another announcement about the same symbol: the
/// requests and the announcements about other symbols in between change
/// nothing of it.
pub proof fn law_announcement_holds_until_next(
    cache: Map<Seq<char>, Seq<char>>,
    before: Seq<IpcMessage>,
    announcement: IpcMessage,
    after: Seq<IpcMessage>,
    request: IpcMessage,
)
    requires
        is_announcement(announcement.event),
        forall|i: int|
            0 <= i < after.len() ==> !(is_announcement((#[trigger] after[i]).event) && event_symbol(
                after[i].event,
            ) == event_symbol(announcement.event)),
        request.event is Request,
        event_symbol(request.event) == event_symbol(announcement.event),
    ensures
        reply_patch(cache_after_all(cache, before + seq![announcement] + after), request) == Some(
            announcement.patch_id@,
        ),
{
    lemma_last_announced_holds(before, announcement, after);
    law_run_answer(cache, before + seq![announcement] + after, request);
}

/// A run of requests leaves what the broker knows as it was.
pub proof fn law_requests_keep_cache_over_run(
    cache: Map<Seq<char>, Seq<char>>,
    msgs: Seq<IpcMessage>,
)
    requires
        forall|i: int| 0 <= i < msgs.len() ==> (#[trigger] msgs[i]).event is Request,
    ensures
        cache_after_all(cache, msgs) == cache,
    decreases msgs.len(),
{
    if msgs.len() > 0 {
        let shorter = msgs.drop_last();
        assert forall|i: int| 0 <= i < shorter.len() implies (#[trigger] shorter[i]).event is Request by {
            assert(shorter[i] == msgs[i]);
        }
        law_requests_keep_cache_over_run(cache, shorter);
        assert(msgs[msgs.len() - 1] == msgs.last());
    }
}

/// Only a request is answered: an announcement (a response or a broadcast)
/// never gets a reply, whatever the broker knows.
pub proof fn law_only_requests_answered(cache: Map<Seq<char>, Seq<char>>, msg: IpcMessage)
    requires
        msg.event is Response || msg.event is Broadcast,
    ensures
        reply_patch(cache, msg) is None,
        reply_patch(cache_after(cache, msg), msg) is None,
{
}

} // verus!
