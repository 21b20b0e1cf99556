//! What an event leaves to be done at the exchange, in which order, and how it
//! goes on from what came of the last order.

use crate::broker::{Broker, BrokerView, Note, NoteView};
use crate::double::Double;
use crate::orders::Order;
use vstd::prelude::*;

verus! {

/// What is left to be done after an event.
#[derive(Debug)]
pub enum Work {
    Nothing,
    /// The position is entered, and then stop and target are put in place.
    Enter { order: Option<Order>, note: Option<Note>, entry: Double },
    /// Stop and target are put in place.
    Protect { orders: Vec<Order>, note: Option<Note> },
    /// Orders are taken back.
    Leave { order: Option<Order>, closed: Note },
}

/// What the work says.
pub enum WorkView {
    Nothing,
    Enter { order: Option<Order>, note: Option<NoteView>, entry: Double },
    Protect { orders: Seq<Order>, note: Option<NoteView> },
    Leave { order: Option<Order>, closed: NoteView },
}

/// What a note says, where there is one.
pub open spec fn note_view(n: Option<Note>) -> Option<NoteView> {
    match n {
        Some(x) => Some(x@),
        None => None,
    }
}

impl View for Work {
    type V = WorkView;

    open spec fn view(&self) -> WorkView {
        match *self {
            Work::Nothing => WorkView::Nothing,
            Work::Enter { order, note, entry } => WorkView::Enter {
                order,
                note: note_view(note),
                entry,
            },
            Work::Protect { orders, note } => WorkView::Protect {
                orders: orders@,
                note: note_view(note),
            },
            Work::Leave { order, closed } => WorkView::Leave { order, closed: closed@ },
        }
    }
}

/// The work as far as it has come.
#[derive(Debug)]
pub enum Errand {
    /// The event is to be published, and then the work is to be done.
    Publish(Work),
    /// The work is to be done.
    Do(Work),
    /// The order that enters a position at the price was sent.
    Entering(Double),
    /// Stop and target are to be put in place.
    Arm,
    /// Of the orders that put them in place one was sent, and these are left.
    Arming(Vec<Order>),
    /// The order that takes back the others was sent; the note tells the close.
    Leaving(Note),
    /// All is done, and the event is to be published.
    PublishLast,
    /// All is done.
    Over,
}

/// What the errand says.
pub enum ErrandView {
    Publish(WorkView),
    Do(WorkView),
    Entering(Double),
    Arm,
    Arming(Seq<Order>),
    Leaving(NoteView),
    PublishLast,
    Over,
}

impl View for Errand {
    type V = ErrandView;

    open spec fn view(&self) -> ErrandView {
        match *self {
            Errand::Publish(w) => ErrandView::Publish(w@),
            Errand::Do(w) => ErrandView::Do(w@),
            Errand::Entering(entry) => ErrandView::Entering(entry),
            Errand::Arm => ErrandView::Arm,
            Errand::Arming(rest) => ErrandView::Arming(rest@),
            Errand::Leaving(closed) => ErrandView::Leaving(closed@),
            Errand::PublishLast => ErrandView::PublishLast,
            Errand::Over => ErrandView::Over,
        }
    }
}

/// What is to be done next.
#[derive(Debug)]
pub enum Act {
    /// The event is published.
    Publish,
    /// The note is logged.
    Log(Note),
    /// The order is sent.
    Send(Order),
    /// Nothing.
    Rest,
}

/// What the act says.
pub enum ActView {
    Publish,
    Log(NoteView),
    Send(Order),
    Rest,
}

impl View for Act {
    type V = ActView;

    open spec fn view(&self) -> ActView {
        match *self {
            Act::Publish => ActView::Publish,
            Act::Log(n) => ActView::Log(n@),
            Act::Send(o) => ActView::Send(o),
            Act::Rest => ActView::Rest,
        }
    }
}

/// What came of an order: the number that the exchange gave it, or what failed.
pub type Reply = Result<String, String>;

/// What the reply says.
pub open spec fn reply_view(r: Reply) -> Result<Seq<char>, Seq<char>> {
    match r {
        Ok(id) => Ok(id@),
        Err(e) => Err(e@),
    }
}

/// The note, where there is one, and else nothing.
pub open spec fn tell(note: Option<NoteView>) -> ActView {
    match note {
        Some(n) => ActView::Log(n),
        None => ActView::Rest,
    }
}

/// How orders that are left are gone through: the first of them is sent.
pub open spec fn send_first(rest: Seq<Order>) -> (ErrandView, ActView) {
    if rest.len() == 0 {
        (ErrandView::Over, ActView::Rest)
    } else {
        (ErrandView::Arming(rest.drop_first()), ActView::Send(rest[0]))
    }
}

impl BrokerView {
    /// What the log tells of an entry order.
    pub open spec fn entry_told(
        self,
        reply: Result<Seq<char>, Seq<char>>,
        entry: Double,
    ) -> Option<NoteView> {
        match (self.mirror, self.sizing) {
            (Some(m), Some(s)) => Some(
                match reply {
                    Ok(id) => NoteView::EntrySent {
                        id,
                        side: m.side,
                        qty: m.qty,
                        entry,
                        notional: s.notional_usd,
                        risk: s.risk_usd,
                    },
                    Err(e) => NoteView::EntryFailed(e),
                },
            ),
            _ => None,
        }
    }

    /// What the log tells of the orders that put stop and target in place.
    pub open spec fn arming_told(self, failed: Option<Seq<char>>) -> Option<NoteView> {
        match self.mirror {
            Some(m) => Some(
                match failed {
                    None => NoteView::Armed { sl: m.sl, tp: m.tp },
                    Some(e) => NoteView::ArmFailed(e),
                },
            ),
            None => None,
        }
    }
}

impl ErrandView {
    /// The errand that an event leaves. A close is published when its orders
    /// were seen to; every other event before anything is done.
    pub open spec fn of(w: WorkView) -> ErrandView {
        match w {
            WorkView::Leave { .. } => ErrandView::Do(w),
            _ => ErrandView::Publish(w),
        }
    }

    /// The errand, the act and the broker that come next, where `reply` is what
    /// came of the last order. The note of a piece of work comes before its
    /// orders. After an entry stop and target are put in place, whatever came of
    /// it. Their orders are sent in turn until one fails.
    pub open spec fn next(
        self,
        b: BrokerView,
        reply: Result<Seq<char>, Seq<char>>,
    ) -> (ErrandView, ActView, BrokerView) {
        let armed = send_first(b.arm_orders());
        match self {
            ErrandView::Publish(w) => (ErrandView::Do(w), ActView::Publish, b),
            ErrandView::Do(WorkView::Nothing) => (ErrandView::Over, ActView::Rest, b),
            ErrandView::Do(WorkView::Enter { order, note, entry }) => match (note, order) {
                (Some(n), _) => (
                    ErrandView::Do(WorkView::Enter { order, note: None, entry }),
                    ActView::Log(n),
                    b,
                ),
                (None, Some(o)) => (ErrandView::Entering(entry), ActView::Send(o), b),
                (None, None) => (armed.0, armed.1, b),
            },
            ErrandView::Do(WorkView::Protect { orders, note }) => match note {
                Some(n) => (
                    ErrandView::Do(WorkView::Protect { orders, note: None }),
                    ActView::Log(n),
                    b,
                ),
                None => (send_first(orders).0, send_first(orders).1, b),
            },
            ErrandView::Do(WorkView::Leave { order, closed }) => match order {
                Some(o) => (ErrandView::Leaving(closed), ActView::Send(o), b),
                None => (ErrandView::PublishLast, ActView::Log(closed), b),
            },
            ErrandView::Entering(entry) => match b.entry_told(reply, entry) {
                Some(n) => (ErrandView::Arm, ActView::Log(n), b),
                None => (armed.0, armed.1, b),
            },
            ErrandView::Arm => (armed.0, armed.1, b),
            ErrandView::Arming(rest) => match reply {
                Err(e) => (ErrandView::Over, tell(b.arming_told(Some(e))), b.armed(false)),
                Ok(_) => if rest.len() == 0 {
                    (ErrandView::Over, tell(b.arming_told(None)), b.armed(true))
                } else {
                    (send_first(rest).0, send_first(rest).1, b)
                },
            },
            ErrandView::Leaving(closed) => (
                ErrandView::PublishLast,
                ActView::Log(
                    match reply {
                        Ok(_) => closed,
                        Err(e) => NoteView::CancelFailed(e),
                    },
                ),
                b,
            ),
            ErrandView::PublishLast => (ErrandView::Over, ActView::Publish, b),
            ErrandView::Over => (ErrandView::Over, ActView::Rest, b),
        }
    }
}

fn first_of(rest: Vec<Order>) -> (r: (Errand, Act))
    ensures
        r.0@ == send_first(rest@).0,
        r.1@ == send_first(rest@).1,
{
    let mut rest: Vec<Order> = rest;
    if rest.len() == 0 {
        (Errand::Over, Act::Rest)
    } else {
        let ghost all = rest@;
        let o: Order = rest.remove(0);
        assert(rest@ =~= all.drop_first());
        (Errand::Arming(rest), Act::Send(o))
    }
}

fn told(note: Option<Note>) -> (r: Act)
    ensures
        r@ == tell(note_view(note)),
{
    match note {
        Some(n) => Act::Log(n),
        None => Act::Rest,
    }
}

fn without_number(reply: Reply) -> (r: Result<(), String>)
    ensures
        match reply {
            Ok(_) => r is Ok,
            Err(e) => r matches Err(x) && x@ == e@,
        },
{
    match reply {
        Ok(_) => Ok(()),
        Err(e) => Err(e),
    }
}

impl Errand {
    /// The errand that an event leaves.
    pub fn new(work: Work) -> (r: Errand)
        ensures
            r@ == ErrandView::of(work@),
    {
        match work {
            Work::Leave { order, closed } => Errand::Do(Work::Leave { order, closed }),
            w => Errand::Publish(w),
        }
    }

    /// What is to be done next, and the errand that is then left. `reply` is
    /// what came of the last order; it does not matter where none was sent.
    pub fn next(self, broker: &mut Broker, reply: Reply) -> (r: (Errand, Act))
        ensures
            (r.0@, r.1@, final(broker)@) == self@.next(old(broker)@, reply_view(reply)),
    {
        match self {
            Errand::Publish(w) => (Errand::Do(w), Act::Publish),
            Errand::Do(w) => Self::begun(w, broker),
            Errand::Entering(entry) => match broker.on_entry(reply, entry) {
                Some(n) => (Errand::Arm, Act::Log(n)),
                None => first_of(broker.arm()),
            },
            Errand::Arm => first_of(broker.arm()),
            Errand::Arming(rest) => if reply.is_ok() && rest.len() > 0 {
                first_of(rest)
            } else {
                (Errand::Over, told(broker.on_armed(without_number(reply))))
            },
            Errand::Leaving(closed) => (
                Errand::PublishLast,
                Act::Log(Broker::on_cancelled(without_number(reply), closed)),
            ),
            Errand::PublishLast => (Errand::Over, Act::Publish),
            Errand::Over => (Errand::Over, Act::Rest),
        }
    }

    /// How a piece of work begins.
    fn begun(w: Work, broker: &Broker) -> (r: (Errand, Act))
        ensures
            forall|reply: Result<Seq<char>, Seq<char>>|
                (r.0@, r.1@, broker@) == #[trigger] ErrandView::Do(w@).next(broker@, reply),
    {
        match w {
            Work::Nothing => (Errand::Over, Act::Rest),
            Work::Enter { order, note, entry } => match (note, order) {
                (Some(n), order) => (
                    Errand::Do(Work::Enter { order, note: None, entry }),
                    Act::Log(n),
                ),
                (None, Some(o)) => (Errand::Entering(entry), Act::Send(o)),
                (None, None) => first_of(broker.arm()),
            },
            Work::Protect { orders, note } => match note {
                Some(n) => (Errand::Do(Work::Protect { orders, note: None }), Act::Log(n)),
                None => first_of(orders),
            },
            Work::Leave { order, closed } => match order {
                Some(o) => (Errand::Leaving(closed), Act::Send(o)),
                None => (Errand::PublishLast, Act::Log(closed)),
            },
        }
    }
}

// ---------------------------------------------------------------------------
// Laws
// ---------------------------------------------------------------------------

impl ErrandView {
    /// What is done in turn where these are the replies that are handed over.
    pub open spec fn acts(
        self,
        b: BrokerView,
        replies: Seq<Result<Seq<char>, Seq<char>>>,
    ) -> Seq<ActView>
        decreases replies.len(),
    {
        if replies.len() == 0 {
            seq![]
        } else {
            let (e, act, c) = self.next(b, replies[0]);
            seq![act] + e.acts(c, replies.drop_first())
        }
    }

    /// The errand and the broker that are left after these replies.
    pub open spec fn after(
        self,
        b: BrokerView,
        replies: Seq<Result<Seq<char>, Seq<char>>>,
    ) -> (ErrandView, BrokerView)
        decreases replies.len(),
    {
        if replies.len() == 0 {
            (self, b)
        } else {
            let (e, _, c) = self.next(b, replies[0]);
            e.after(c, replies.drop_first())
        }
    }
}

/// The orders among some acts.
pub open spec fn orders_of(acts: Seq<ActView>) -> Seq<Order>
    decreases acts.len(),
{
    if acts.len() == 0 {
        seq![]
    } else {
        match acts[0] {
            ActView::Send(o) => seq![o] + orders_of(acts.drop_first()),
            _ => orders_of(acts.drop_first()),
        }
    }
}

/// How many replies come before the first that tells a failure.
pub open spec fn before_failure(replies: Seq<Result<Seq<char>, Seq<char>>>) -> nat
    decreases replies.len(),
{
    if replies.len() == 0 || replies[0] is Err {
        0
    } else {
        1 + before_failure(replies.drop_first())
    }
}

/// The first orders, as many as `n`, or all of them where there are fewer.
pub open spec fn first_orders(orders: Seq<Order>, n: nat) -> Seq<Order> {
    if n < orders.len() {
        orders.take(n as int)
    } else {
        orders
    }
}

proof fn lemma_orders_of_one_more(act: ActView, rest: Seq<ActView>)
    ensures
        orders_of(seq![act] + rest) == match act {
            ActView::Send(o) => seq![o] + orders_of(rest),
            _ => orders_of(rest),
        },
{
    let all = seq![act] + rest;
    assert(all.drop_first() =~= rest);
}

/// An errand that is over orders nothing and leaves the broker alone.
proof fn lemma_over(b: BrokerView, replies: Seq<Result<Seq<char>, Seq<char>>>)
    ensures
        orders_of(ErrandView::Over.acts(b, replies)) == Seq::<Order>::empty(),
        ErrandView::Over.after(b, replies) == (ErrandView::Over, b),
    decreases replies.len(),
{
    if replies.len() > 0 {
        lemma_over(b, replies.drop_first());
        lemma_orders_of_one_more(
            ActView::Rest,
            ErrandView::Over.acts(b, replies.drop_first()),
        );
    }
}

/// The orders that put stop and target in place are sent in turn until one
/// fails. The position counts as protected where none of them did.
pub proof fn law_orders_until_one_fails(
    rest: Seq<Order>,
    b: BrokerView,
    replies: Seq<Result<Seq<char>, Seq<char>>>,
)
    ensures
        orders_of(ErrandView::Arming(rest).acts(b, replies)) == first_orders(
            rest,
            before_failure(replies),
        ),
        replies.len() > rest.len() ==> ErrandView::Arming(rest).after(b, replies) == (
            ErrandView::Over,
            b.armed(before_failure(replies) > rest.len()),
        ),
    decreases replies.len(),
{
    if replies.len() > 0 {
        let later = replies.drop_first();
        let (e, act, c) = ErrandView::Arming(rest).next(b, replies[0]);
        lemma_orders_of_one_more(act, e.acts(c, later));
        if replies[0] is Ok && rest.len() > 0 {
            law_orders_until_one_fails(rest.drop_first(), b, later);
            assert(first_orders(rest, before_failure(replies)) =~= seq![rest[0]] + first_orders(
                rest.drop_first(),
                before_failure(later),
            ));
        } else {
            lemma_over(c, later);
            assert(first_orders(rest, before_failure(replies)) =~= seq![]);
        }
    } else {
        assert(first_orders(rest, 0) =~= seq![]);
    }
}

/// A position that was entered is protected whatever came of its entry: the
/// entry is told, where there is something to tell, and then the orders for stop
/// and target are gone through.
pub proof fn law_protected_whatever_came_of_the_entry(
    b: BrokerView,
    entry: Double,
    came: Result<Seq<char>, Seq<char>>,
    any: Result<Seq<char>, Seq<char>>,
)
    ensures
        ({
            let (e, act, c) = ErrandView::Entering(entry).next(b, came);
            let first = send_first(b.arm_orders());
            match b.entry_told(came, entry) {
                Some(n) => {
                    &&& act == ActView::Log(n)
                    &&& e.next(c, any) == (first.0, first.1, b)
                },
                None => (e, act, c) == (first.0, first.1, b),
            }
        }),
{
}

/// A close is published last, and once: the other orders are taken back first,
/// where orders are sent, and the log tells the close, or what failed.
pub proof fn law_close_is_published_last(
    order: Option<Order>,
    closed: NoteView,
    b: BrokerView,
    replies: Seq<Result<Seq<char>, Seq<char>>>,
)
    requires
        replies.len() == 4,
    ensures
        ({
            let acts = ErrandView::of(WorkView::Leave { order, closed }).acts(b, replies);
            match order {
                Some(o) => acts == seq![
                    ActView::Send(o),
                    ActView::Log(
                        match replies[1] {
                            Ok(_) => closed,
                            Err(e) => NoteView::CancelFailed(e),
                        },
                    ),
                    ActView::Publish,
                    ActView::Rest,
                ],
                None => acts == seq![
                    ActView::Log(closed),
                    ActView::Publish,
                    ActView::Rest,
                    ActView::Rest,
                ],
            }
        }),
{
    reveal_with_fuel(ErrandView::acts, 5);
    let acts = ErrandView::of(WorkView::Leave { order, closed }).acts(b, replies);
    assert(acts.len() == 4);
}

/// Any other event is published first, before its work is begun.
pub proof fn law_other_events_are_published_first(
    w: WorkView,
    b: BrokerView,
    reply: Result<Seq<char>, Seq<char>>,
)
    requires
        !(w is Leave),
    ensures
        ErrandView::of(w).next(b, reply) == (ErrandView::Do(w), ActView::Publish, b),
{
}

} // verus!
