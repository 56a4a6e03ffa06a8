//! Grouping of outgoing messages by destination.
//!
//! The messages of one source are gossiped in groups: neighbouring messages
//! with the same target make one group, and each group is one send. A target
//! that comes back after another one opens a new group: the order of the
//! messages is kept, whatever it is.

use crate::primitives::{copy_bytes, ParaId};
use parity_codec::Encode;
use slice_group_by::GroupBy;
use vstd::prelude::*;

verus! {

/// A message with the parachain it is for.
#[derive(Clone, Debug, PartialEq, Eq)]
pub struct OutgoingMessage {
    pub target: ParaId,
    pub data: Vec<u8>,
}

/// The messages that one parachain sends out, in order.
#[derive(Clone, Debug, PartialEq, Eq)]
pub struct OutgoingMessages {
    pub from: ParaId,
    pub messages: Vec<OutgoingMessage>,
}

/// Neighbouring messages of one source for one target.
#[derive(Clone, Debug, PartialEq, Eq)]
pub struct EgressGroup {
    pub source: ParaId,
    pub target: ParaId,
    pub messages: Vec<Vec<u8>>,
}

/// One gossip send: the encoded ingress for `target`, to be published on the
/// topic of that target's incoming messages.
#[derive(Clone, Debug, PartialEq, Eq)]
pub struct EgressSend {
    pub target: ParaId,
    pub payload: Vec<u8>,
}

/// An outgoing message as a value.
pub struct MessageView {
    pub target: ParaId,
    pub data: Seq<u8>,
}

/// The outgoing messages of one source as a value.
pub struct BatchView {
    pub from: ParaId,
    pub messages: Seq<MessageView>,
}

/// A group as a value.
pub struct GroupView {
    pub source: ParaId,
    pub target: ParaId,
    pub messages: Seq<Seq<u8>>,
}

/// A send as a value.
pub struct SendView {
    pub target: ParaId,
    pub payload: Seq<u8>,
}

impl View for OutgoingMessage {
    type V = MessageView;

    open spec fn view(&self) -> MessageView {
        MessageView { target: self.target, data: self.data@ }
    }
}

impl View for OutgoingMessages {
    type V = BatchView;

    open spec fn view(&self) -> BatchView {
        BatchView { from: self.from, messages: message_views(self.messages@) }
    }
}

impl View for EgressGroup {
    type V = GroupView;

    open spec fn view(&self) -> GroupView {
        GroupView { source: self.source, target: self.target, messages: payload_views(self.messages@) }
    }
}

impl View for EgressSend {
    type V = SendView;

    open spec fn view(&self) -> SendView {
        SendView { target: self.target, payload: self.payload@ }
    }
}

/// The messages as values.
pub open spec fn message_views(messages: Seq<OutgoingMessage>) -> Seq<MessageView> {
    Seq::new(messages.len(), |i: int| messages[i]@)
}

/// The batches as values.
pub open spec fn batch_views(batches: Seq<OutgoingMessages>) -> Seq<BatchView> {
    Seq::new(batches.len(), |i: int| batches[i]@)
}

/// The payloads as values.
pub open spec fn payload_views(payloads: Seq<Vec<u8>>) -> Seq<Seq<u8>> {
    Seq::new(payloads.len(), |i: int| payloads[i]@)
}

/// The groups as values.
pub open spec fn group_views(groups: Seq<EgressGroup>) -> Seq<GroupView> {
    Seq::new(groups.len(), |i: int| groups[i]@)
}

/// The sends as values.
pub open spec fn send_views(sends: Seq<EgressSend>) -> Seq<SendView> {
    Seq::new(sends.len(), |i: int| sends[i]@)
}

/// The data of the messages from place `start` up to place `end`.
pub open spec fn payloads_between(messages: Seq<MessageView>, start: int, end: int) -> Seq<Seq<u8>> {
    Seq::new((end - start) as nat, |i: int| messages[start + i].data)
}

/// The groups of the messages of `source`: a message joins the group of the
/// message before it when both have the same target, and opens a group
/// otherwise.
pub open spec fn linear_groups(source: ParaId, messages: Seq<MessageView>) -> Seq<GroupView>
    decreases messages.len(),
{
    if messages.len() == 0 {
        Seq::empty()
    } else {
        let earlier = linear_groups(source, messages.drop_last());
        let message = messages.last();
        if messages.len() >= 2 && messages[messages.len() - 2].target == message.target {
            earlier.drop_last().push(
                GroupView { messages: earlier.last().messages.push(message.data), ..earlier.last() },
            )
        } else {
            earlier.push(GroupView { source, target: message.target, messages: seq![message.data] })
        }
    }
}

/// The place of the first message of the run `k`, for runs of the lengths `lens`.
pub open spec fn run_start(lens: Seq<usize>, k: int) -> int
    decreases k,
{
    if k <= 0 {
        0
    } else {
        run_start(lens, k - 1) + lens[k - 1]
    }
}

/// Whether runs of the lengths `lens`, one after the other, are the groups
/// of `messages`: no run is empty, together they cover the messages,
/// neighbours within a run have the same target, and the last message of a
/// run and the first of the next have different targets.
pub open spec fn is_linear_grouping(messages: Seq<MessageView>, lens: Seq<usize>) -> bool {
    &&& forall|k: int| 0 <= k < lens.len() ==> #[trigger] lens[k] >= 1
    &&& run_start(lens, lens.len() as int) == messages.len()
    &&& forall|k: int, j: int|
        0 <= k < lens.len() && #[trigger] run_start(lens, k) < j < run_start(lens, k + 1)
            ==> messages[j - 1].target == (#[trigger] messages[j]).target
    &&& forall|k: int|
        0 < k < lens.len() ==> messages[#[trigger] run_start(lens, k) - 1].target
            != messages[run_start(lens, k)].target
}

/// Whether two messages are for the same target.
pub fn same_target(a: &OutgoingMessage, b: &OutgoingMessage) -> (same: bool)
    ensures
        same == (a.target == b.target),
{
    a.target == b.target
}

/// Calls `linear_group_by` of `slice_group_by::GroupBy` on the messages, with
/// `same_target` as the predicate, and gives the length of each group in
/// order. The iterator cuts the slice into groups from the front: a group is
/// the first element and each next one for which the predicate holds of it
/// and the element before it, up to the first for which it fails. The
/// contract claims this and no more.
#[verifier::external_body]
fn group_lengths(messages: &Vec<OutgoingMessage>) -> (lens: Vec<usize>)
    ensures
        is_linear_grouping(message_views(messages@), lens@),
{
    messages.as_slice().linear_group_by(|a, b| same_target(a, b)).map(|group| group.len()).collect()
}

/// The result of SCALE-encoding the pair of a source and the messages it
/// sends to one target.
pub uninterp spec fn ingress_encoding(source: u32, messages: Seq<Seq<u8>>) -> Seq<u8>;

/// Calls `Encode::encode` of `parity_codec` on the pair of the source and
/// the slice of messages. The bytes depend on the pair alone; the contract
/// gives them the name `ingress_encoding`. The codec refuses a collection of
/// more than `u32::MAX` elements, so these are left out.
#[verifier::external_body]
fn encode_ingress(source: ParaId, messages: &Vec<Vec<u8>>) -> (payload: Vec<u8>)
    requires
        messages.len() <= u32::MAX,
        forall|i: int| 0 <= i < messages.len() ==> (#[trigger] messages[i]).len() <= u32::MAX,
    ensures
        payload@ == ingress_encoding(source, payload_views(messages@)),
{
    (source, messages.as_slice()).encode()
}

proof fn lemma_run_start_grows(lens: Seq<usize>, a: int, b: int)
    requires
        0 <= a <= b <= lens.len(),
    ensures
        0 <= run_start(lens, a) <= run_start(lens, b),
    decreases b,
{
    if a < b {
        lemma_run_start_grows(lens, a, b - 1);
    } else if a > 0 {
        lemma_run_start_grows(lens, a - 1, a - 1);
    }
}

/// A run of messages for one target, before which the target changes, is
/// the next group after the groups of the messages before it.
proof fn lemma_run_is_group(source: ParaId, messages: Seq<MessageView>, start: int, end: int)
    requires
        0 <= start < end <= messages.len(),
        start == 0 || messages[start - 1].target != messages[start].target,
        forall|j: int| start < j < end ==> messages[j - 1].target == (#[trigger] messages[j]).target,
    ensures
        linear_groups(source, messages.take(end)) == linear_groups(
            source,
            messages.take(start),
        ).push(
            GroupView {
                source,
                target: messages[start].target,
                messages: payloads_between(messages, start, end),
            },
        ),
    decreases end - start,
{
    let upto = messages.take(end);
    assert(upto.drop_last() == messages.take(end - 1));
    assert(upto.last() == messages[end - 1]);
    let before = linear_groups(source, messages.take(start));
    if end == start + 1 {
        if start > 0 {
            assert(upto[upto.len() - 2] == messages[start - 1]);
        }
        assert(payloads_between(messages, start, end) =~= seq![messages[start].data]);
    } else {
        lemma_run_is_group(source, messages, start, end - 1);
        assert(upto[upto.len() - 2] == messages[end - 2]);
        assert(messages[end - 2].target == messages[end - 1].target);
        let earlier = linear_groups(source, messages.take(end - 1));
        assert(earlier.drop_last() == before);
        assert(payloads_between(messages, start, end - 1).push(messages[end - 1].data)
            =~= payloads_between(messages, start, end));
    }
}

/// The groups of the messages that `source` sends out.
pub fn group_messages(source: ParaId, messages: &Vec<OutgoingMessage>) -> (groups: Vec<EgressGroup>)
    ensures
        group_views(groups@) == linear_groups(source, message_views(messages@)),
{
    let ghost values = message_views(messages@);
    let lens = group_lengths(messages);
    let mut groups: Vec<EgressGroup> = Vec::new();
    let mut start: usize = 0;
    let mut k: usize = 0;
    assert(values.take(0) =~= Seq::<MessageView>::empty());
    while k < lens.len()
        invariant
            k <= lens.len(),
            values == message_views(messages@),
            is_linear_grouping(values, lens@),
            start == run_start(lens@, k as int),
            start <= messages.len(),
            group_views(groups@) == linear_groups(source, values.take(start as int)),
        decreases lens.len() - k,
    {
        let len: usize = lens[k];
        proof {
            lemma_run_start_grows(lens@, k + 1, lens@.len() as int);
            assert(run_start(lens@, k + 1) == start + len);
        }
        let end: usize = start + len;
        let target = messages[start].target;
        let mut payloads: Vec<Vec<u8>> = Vec::new();
        let mut j: usize = start;
        while j < end
            invariant
                start <= j <= end <= messages.len(),
                values == message_views(messages@),
                payload_views(payloads@) == payloads_between(values, start as int, j as int),
            decreases end - j,
        {
            let data = copy_bytes(&messages[j].data);
            let ghost earlier = payloads@;
            payloads.push(data);
            proof {
                assert(payload_views(payloads@) =~= payload_views(earlier).push(values[j as int].data));
                assert(payloads_between(values, start as int, j + 1) =~= payloads_between(
                    values,
                    start as int,
                    j as int,
                ).push(values[j as int].data));
            }
            j = j + 1;
        }
        let ghost groups_before = groups@;
        groups.push(EgressGroup { source, target, messages: payloads });
        proof {
            if k > 0 {
                assert(values[run_start(lens@, k as int) - 1].target != values[run_start(
                    lens@,
                    k as int,
                )].target);
            }
            assert forall|i: int| start < i < end implies values[i - 1].target == (
            #[trigger] values[i]).target by {
                assert(run_start(lens@, k as int) < i < run_start(lens@, k + 1));
            }
            lemma_run_is_group(source, values, start as int, end as int);
            assert(group_views(groups@) =~= group_views(groups_before).push(
                GroupView {
                    source,
                    target: values[start as int].target,
                    messages: payloads_between(values, start as int, end as int),
                },
            ));
        }
        start = end;
        k = k + 1;
    }
    assert(values.take(start as int) =~= values);
    groups
}

/// The send of one group.
pub open spec fn group_send(group: GroupView) -> SendView {
    SendView { target: group.target, payload: ingress_encoding(group.source, group.messages) }
}

/// The sends of the groups, in order.
pub open spec fn group_sends(groups: Seq<GroupView>) -> Seq<SendView> {
    Seq::new(groups.len(), |i: int| group_send(groups[i]))
}

/// The sends for the outgoing messages of all sources: those of the first
/// source's groups in order, then those of the second, and so on.
pub open spec fn egress_sends(batches: Seq<BatchView>) -> Seq<SendView>
    decreases batches.len(),
{
    if batches.len() == 0 {
        Seq::empty()
    } else {
        egress_sends(batches.drop_last()) + group_sends(
            linear_groups(batches.last().from, batches.last().messages),
        )
    }
}

/// Whether the codec can encode every group of the batches: no batch has
/// more than `u32::MAX` messages, and no message more than `u32::MAX` bytes.
pub open spec fn encodable(batches: Seq<BatchView>) -> bool {
    forall|b: int|
        0 <= b < batches.len() ==> {
            &&& (#[trigger] batches[b]).messages.len() <= u32::MAX
            &&& forall|m: int|
                0 <= m < batches[b].messages.len() ==> (
                #[trigger] batches[b].messages[m]).data.len() <= u32::MAX
        }
}

/// Every message of every group of `messages` is the data of one of them,
/// and a group has no more messages than there are.
proof fn lemma_groups_within(source: ParaId, messages: Seq<MessageView>, bound: int)
    requires
        messages.len() <= bound,
        forall|m: int| 0 <= m < messages.len() ==> (#[trigger] messages[m]).data.len() <= bound,
    ensures
        forall|g: int|
            0 <= g < linear_groups(source, messages).len() ==> {
                &&& (#[trigger] linear_groups(source, messages)[g]).messages.len()
                    <= messages.len()
                &&& forall|i: int|
                    0 <= i < linear_groups(source, messages)[g].messages.len() ==> (
                    #[trigger] linear_groups(source, messages)[g].messages[i]).len() <= bound
            },
    decreases messages.len(),
{
    if messages.len() > 0 {
        let shorter = messages.drop_last();
        assert forall|m: int| 0 <= m < shorter.len() implies (#[trigger] shorter[m]).data.len()
            <= bound by {
            assert(shorter[m] == messages[m]);
        }
        lemma_groups_within(source, shorter, bound);
        let earlier = linear_groups(source, shorter);
        let groups = linear_groups(source, messages);
        assert(messages[messages.len() - 1].data.len() <= bound);
        assert forall|g: int| 0 <= g < groups.len() implies {
            &&& (#[trigger] groups[g]).messages.len() <= messages.len()
            &&& forall|i: int|
                0 <= i < groups[g].messages.len() ==> (#[trigger] groups[g].messages[i]).len()
                    <= bound
        } by {
            if g < groups.len() - 1 {
                assert(groups[g] == earlier[g]);
            } else if messages.len() >= 2 && messages[messages.len() - 2].target
                == messages.last().target {
                assert(earlier.len() > 0) by {
                    lemma_groups_not_empty(source, shorter);
                }
                let joined = earlier.last().messages;
                assert(groups[g].messages == joined.push(messages.last().data));
                assert forall|i: int| 0 <= i < groups[g].messages.len() implies (
                #[trigger] groups[g].messages[i]).len() <= bound by {
                    if i < joined.len() {
                        assert(earlier[earlier.len() - 1].messages[i].len() <= bound);
                    }
                }
            } else {
            }
        }
    }
}

/// Messages, if there are any, have at least one group.
proof fn lemma_groups_not_empty(source: ParaId, messages: Seq<MessageView>)
    requires
        messages.len() > 0,
    ensures
        linear_groups(source, messages).len() > 0,
    decreases messages.len(),
{
    if messages.len() >= 2 {
        lemma_groups_not_empty(source, messages.drop_last());
    }
}

/// The gossip sends for the given outgoing messages: one per group, with
/// the encoded pair of the source and the group's messages as the payload.
pub fn egress_for(outgoing: &Vec<OutgoingMessages>) -> (sends: Vec<EgressSend>)
    requires
        encodable(batch_views(outgoing@)),
    ensures
        send_views(sends@) == egress_sends(batch_views(outgoing@)),
{
    let ghost batches = batch_views(outgoing@);
    let mut sends: Vec<EgressSend> = Vec::new();
    let mut b: usize = 0;
    assert(batches.take(0) =~= Seq::<BatchView>::empty());
    while b < outgoing.len()
        invariant
            b <= outgoing.len(),
            batches == batch_views(outgoing@),
            encodable(batches),
            send_views(sends@) == egress_sends(batches.take(b as int)),
        decreases outgoing.len() - b,
    {
        let source = outgoing[b].from;
        let groups = group_messages(source, &outgoing[b].messages);
        let ghost expected = linear_groups(source, batches[b as int].messages);
        let ghost sends_before = send_views(sends@);
        proof {
            assert(batches[b as int].messages.len() <= u32::MAX);
            lemma_groups_within(source, batches[b as int].messages, u32::MAX as int);
            assert(group_views(groups@) == expected);
        }
        let mut g: usize = 0;
        while g < groups.len()
            invariant
                g <= groups.len(),
                group_views(groups@) == expected,
                forall|k: int|
                    0 <= k < expected.len() ==> {
                        &&& (#[trigger] expected[k]).messages.len() <= u32::MAX
                        &&& forall|i: int|
                            0 <= i < expected[k].messages.len() ==> (
                            #[trigger] expected[k].messages[i]).len() <= u32::MAX
                    },
                send_views(sends@) == sends_before + group_sends(expected).take(g as int),
            decreases groups.len() - g,
        {
            let group = &groups[g];
            proof {
                assert(group@ == expected[g as int]);
                assert(group.messages.len() <= u32::MAX);
                assert forall|i: int| 0 <= i < group.messages.len() implies (
                #[trigger] group.messages[i]).len() <= u32::MAX by {
                    assert(expected[g as int].messages[i] == group.messages[i]@);
                }
            }
            let payload = encode_ingress(group.source, &group.messages);
            let ghost collected = sends@;
            sends.push(EgressSend { target: group.target, payload });
            proof {
                assert(send_views(sends@) =~= send_views(collected).push(
                    group_send(expected[g as int]),
                ));
                assert(group_sends(expected).take(g + 1) =~= group_sends(expected).take(
                    g as int,
                ).push(group_send(expected[g as int])));
            }
            g = g + 1;
        }
        proof {
            assert(group_sends(expected).take(g as int) =~= group_sends(expected));
            assert(batches.take(b + 1).drop_last() =~= batches.take(b as int));
            assert(batches.take(b + 1).last() == batches[b as int]);
        }
        b = b + 1;
    }
    assert(batches.take(b as int) =~= batches);
    sends
}

/// The messages of one group, each with the group's target.
pub open spec fn group_messages_of(group: GroupView) -> Seq<MessageView> {
    Seq::new(
        group.messages.len(),
        |i: int| MessageView { target: group.target, data: group.messages[i] },
    )
}

/// The messages of the groups, one group after the other.
pub open spec fn ungrouped(groups: Seq<GroupView>) -> Seq<MessageView>
    decreases groups.len(),
{
    if groups.len() == 0 {
        Seq::empty()
    } else {
        ungrouped(groups.drop_last()) + group_messages_of(groups.last())
    }
}

/// Grouping goes by neighbourhood and loses nothing: the groups, one after
/// the other, hold the messages in their order; every group is of the given
/// source and not empty; two groups that follow each other have different
/// targets; and the last group is for the target of the last message. So a
/// target that comes back after another one has a group of its own.
pub proof fn law_grouping_is_by_neighbourhood(source: ParaId, messages: Seq<MessageView>)
    ensures
        ungrouped(linear_groups(source, messages)) == messages,
        forall|g: int|
            0 <= g < linear_groups(source, messages).len() ==> {
                &&& (#[trigger] linear_groups(source, messages)[g]).messages.len() >= 1
                &&& linear_groups(source, messages)[g].source == source
            },
        forall|g: int|
            0 < g < linear_groups(source, messages).len() ==> linear_groups(
                source,
                messages,
            )[g - 1].target != (#[trigger] linear_groups(source, messages)[g]).target,
        messages.len() > 0 ==> linear_groups(source, messages).len() > 0 && linear_groups(
            source,
            messages,
        ).last().target == messages.last().target,
    decreases messages.len(),
{
    let groups = linear_groups(source, messages);
    if messages.len() == 0 {
    } else {
        let shorter = messages.drop_last();
        let earlier = linear_groups(source, shorter);
        let message = messages.last();
        law_grouping_is_by_neighbourhood(source, shorter);
        if messages.len() >= 2 && messages[messages.len() - 2].target == message.target {
            assert(shorter.last() == messages[messages.len() - 2]);
            let joined = GroupView {
                messages: earlier.last().messages.push(message.data),
                ..earlier.last()
            };
            assert(groups == earlier.drop_last().push(joined));
            assert(groups.drop_last() == earlier.drop_last());
            assert(group_messages_of(joined) =~= group_messages_of(earlier.last()).push(message));
            assert(ungrouped(groups) =~= ungrouped(earlier).push(message));
            assert(shorter.push(message) =~= messages);
            assert forall|g: int| 0 <= g < groups.len() implies {
                &&& (#[trigger] groups[g]).messages.len() >= 1
                &&& groups[g].source == source
            } by {
                if g < groups.len() - 1 {
                    assert(groups[g] == earlier[g]);
                }
            }
            assert forall|g: int| 0 < g < groups.len() implies groups[g - 1].target != (
            #[trigger] groups[g]).target by {
                assert(groups[g - 1] == earlier[g - 1]);
                assert(groups[g].target == earlier[g].target);
            }
        } else {
            let opened = GroupView { source, target: message.target, messages: seq![message.data] };
            assert(groups == earlier.push(opened));
            assert(groups.drop_last() == earlier);
            assert(group_messages_of(opened) =~= seq![message]);
            assert(ungrouped(groups) =~= shorter.push(message));
            assert(shorter.push(message) =~= messages);
            assert forall|g: int| 0 <= g < groups.len() implies {
                &&& (#[trigger] groups[g]).messages.len() >= 1
                &&& groups[g].source == source
            } by {
                if g < groups.len() - 1 {
                    assert(groups[g] == earlier[g]);
                }
            }
            assert forall|g: int| 0 < g < groups.len() implies groups[g - 1].target != (
            #[trigger] groups[g]).target by {
                if g < groups.len() - 1 {
                    assert(groups[g - 1] == earlier[g - 1]);
                    assert(groups[g] == earlier[g]);
                } else {
                    assert(groups[g - 1] == earlier.last());
                    assert(shorter.last() == messages[messages.len() - 2]);
                }
            }
        }
    }
}

} // verus!
