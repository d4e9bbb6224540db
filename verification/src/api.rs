//! What the web endpoint shows: consumer groups, messages, topics and connections.
use vstd::prelude::*;

use crate::select;
use crate::sort;
use crate::sort::{stable_sort, Ranked};
use crate::text;
use crate::text::{to_chars, utf8_text};

verus! {

broadcast use vstd::string::group_string_axioms;

/// A consumer group in the list of all groups.
pub struct GroupListing {
    pub group_id: String,
    pub protocol_type: String,
}

/// The group is one of consumers, or does not say what it is.
pub open spec fn consumes(g: GroupListing) -> bool {
    g.protocol_type@ == "consumer"@ || g.protocol_type@.len() == 0
}

/// The ids of the first `n` groups, as far as they are groups of consumers.
pub open spec fn consumer_ids(groups: Seq<GroupListing>, n: nat) -> Seq<Seq<char>>
    decreases n,
{
    if n == 0 {
        Seq::empty()
    } else if consumes(groups[n - 1]) {
        consumer_ids(groups, (n - 1) as nat).push(groups[n - 1].group_id@)
    } else {
        consumer_ids(groups, (n - 1) as nat)
    }
}

/// The ids of the groups of consumers.
pub fn consumer_group_ids(groups: &Vec<GroupListing>) -> (r: Vec<String>)
    ensures
        r@.map_values(|s: String| s@) == consumer_ids(groups@, groups@.len()),
{
    let mut r: Vec<String> = Vec::new();
    let consumer = "consumer".to_owned();
    let mut i: usize = 0;
    assert(r@.map_values(|s: String| s@) =~= Seq::empty());
    while i < groups.len()
        invariant
            i <= groups@.len(),
            consumer@ == "consumer"@,
            r@.map_values(|s: String| s@) == consumer_ids(groups@, i as nat),
        decreases groups@.len() - i,
    {
        let ghost before = r@;
        let g = &groups[i];
        if g.protocol_type == consumer || g.protocol_type.as_str().is_empty() {
            r.push(g.group_id.clone());
            assert(r@.map_values(|s: String| s@) =~= before.map_values(|s: String| s@).push(
                g.group_id@,
            ));
        }
        i = i + 1;
    }
    r
}

/// The ids that are listed are those of the groups of consumers, and of the groups that do not say
/// what they are, in their order.
pub proof fn consumer_groups_are_listed(groups: Seq<GroupListing>, n: nat) -> (at: Seq<int>)
    ensures
        select::positions(
            at,
            n as int,
            |i: int|
                groups[i].protocol_type@ == "consumer"@ || groups[i].protocol_type@
                    == Seq::<char>::empty(),
        ),
        consumer_ids(groups, n).len() == at.len(),
        forall|k: int|
            0 <= k < at.len() ==> #[trigger] consumer_ids(groups, n)[k] == groups[at[k]].group_id@,
    decreases n,
{
    let wanted = |i: int|
        groups[i].protocol_type@ == "consumer"@ || groups[i].protocol_type@
            == Seq::<char>::empty();
    if n == 0 {
        Seq::empty()
    } else {
        let k = n - 1;
        let earlier = consumer_groups_are_listed(groups, k as nat);
        select::position_is_added(earlier, k, wanted);
        if groups[k].protocol_type@.len() == 0 {
            assert(groups[k].protocol_type@ =~= Seq::<char>::empty());
        }
        if wanted(k) {
            earlier.push(k)
        } else {
            earlier
        }
    }
}

/// A member of a consumer group.
pub struct GroupMember {
    pub member_id: String,
    pub client_id: String,
    pub client_host: String,
}

/// A consumer group: its state and its members.
pub struct GroupDescription {
    pub group_id: String,
    pub state: String,
    pub members: Vec<GroupMember>,
}

/// How far a group has come in a partition.
#[derive(Debug)]
pub struct GroupOffset {
    pub topic: String,
    pub partition: i32,
    pub committed_offset: i64,
    pub log_end_offset: i64,
    pub lag: i64,
}

/// How far a group has come in a partition of the topic that is looked at.
#[derive(Clone, Copy, Debug, PartialEq, Eq, Structural)]
pub struct PartitionLag {
    pub partition: i32,
    pub committed_offset: i64,
    pub log_end_offset: i64,
    pub lag: i64,
}

/// A group that consumes a topic.
pub struct ConsumerGroup {
    pub group: String,
    pub state: String,
    /// The description that the members come from, by its position.
    pub described_by: Option<usize>,
    pub partitions: Vec<PartitionLag>,
    pub total_lag: i64,
}

/// What a `ConsumerGroup` holds.
#[verifier::ext_equal]
pub struct ConsumerGroupView {
    pub group: Seq<char>,
    pub state: Seq<char>,
    pub described_by: Option<int>,
    pub partitions: Seq<PartitionLag>,
    pub total_lag: int,
}

impl View for ConsumerGroup {
    type V = ConsumerGroupView;

    open spec fn view(&self) -> ConsumerGroupView {
        ConsumerGroupView {
            group: self.group@,
            state: self.state@,
            described_by: match self.described_by {
                Some(i) => Some(i as int),
                None => None,
            },
            partitions: self.partitions@,
            total_lag: self.total_lag as int,
        }
    }
}

/// What the first `n` offsets say of the topic.
pub open spec fn lags_on(offsets: Seq<GroupOffset>, topic: Seq<char>, n: nat) -> Seq<PartitionLag>
    decreases n,
{
    if n == 0 {
        Seq::empty()
    } else {
        let o = offsets[n - 1];
        let before = lags_on(offsets, topic, (n - 1) as nat);
        if o.topic@ == topic {
            before.push(
                PartitionLag {
                    partition: o.partition,
                    committed_offset: o.committed_offset,
                    log_end_offset: o.log_end_offset,
                    lag: o.lag,
                },
            )
        } else {
            before
        }
    }
}

/// The sum of the known lags; a negative lag is unknown.
pub open spec fn lag_sum(lags: Seq<PartitionLag>) -> int
    decreases lags.len(),
{
    if lags.len() == 0 {
        0
    } else {
        lag_sum(lags.drop_last()) + (if lags.last().lag >= 0 {
            lags.last().lag as int
        } else {
            0
        })
    }
}

/// The last of the first `n` descriptions that is of this group.
pub open spec fn description_of(
    descriptions: Seq<GroupDescription>,
    group: Seq<char>,
    n: nat,
) -> Option<int>
    decreases n,
{
    if n == 0 {
        None
    } else if descriptions[n - 1].group_id@ == group {
        Some(n - 1)
    } else {
        description_of(descriptions, group, (n - 1) as nat)
    }
}

/// A group on a topic.
pub open spec fn group_on(
    topic: Seq<char>,
    descriptions: Seq<GroupDescription>,
    group: Seq<char>,
    lags: Seq<PartitionLag>,
) -> ConsumerGroupView {
    let described_by = description_of(descriptions, group, descriptions.len());
    ConsumerGroupView {
        group,
        state: match described_by {
            Some(i) => descriptions[i].state@,
            None => "Unknown"@,
        },
        described_by,
        partitions: lags,
        total_lag: lag_sum(lags),
    }
}

/// The groups among the first `n` that have an offset on the topic.
pub open spec fn groups_on(
    topic: Seq<char>,
    descriptions: Seq<GroupDescription>,
    fetched: Seq<(String, Vec<GroupOffset>)>,
    n: nat,
) -> Seq<ConsumerGroupView>
    decreases n,
{
    if n == 0 {
        Seq::empty()
    } else {
        let before = groups_on(topic, descriptions, fetched, (n - 1) as nat);
        let offsets = fetched[n - 1].1@;
        let lags = lags_on(offsets, topic, offsets.len());
        if lags.len() == 0 {
            before
        } else {
            before.push(group_on(topic, descriptions, fetched[n - 1].0@, lags))
        }
    }
}

/// Every total lag fits in 64 bits.
pub open spec fn totals_fit(topic: Seq<char>, fetched: Seq<(String, Vec<GroupOffset>)>) -> bool {
    forall|i: int|
        0 <= i < fetched.len() ==> lag_sum(
            lags_on((#[trigger] fetched[i]).1@, topic, fetched[i].1@.len()),
        ) <= i64::MAX
}

fn lags_of(offsets: &Vec<GroupOffset>, topic: &str) -> (r: Vec<PartitionLag>)
    ensures
        r@ == lags_on(offsets@, topic@, offsets@.len()),
{
    let wanted = topic.to_owned();
    let mut r: Vec<PartitionLag> = Vec::new();
    let mut i: usize = 0;
    while i < offsets.len()
        invariant
            i <= offsets@.len(),
            wanted@ == topic@,
            r@ == lags_on(offsets@, topic@, i as nat),
        decreases offsets@.len() - i,
    {
        let o = &offsets[i];
        if o.topic == wanted {
            r.push(
                PartitionLag {
                    partition: o.partition,
                    committed_offset: o.committed_offset,
                    log_end_offset: o.log_end_offset,
                    lag: o.lag,
                },
            );
        }
        i = i + 1;
    }
    r
}

proof fn lemma_lag_sum_grows(lags: Seq<PartitionLag>, n: int)
    requires
        0 <= n <= lags.len(),
    ensures
        0 <= lag_sum(lags.take(n)) <= lag_sum(lags),
    decreases lags.len(),
{
    if n == lags.len() {
        assert(lags.take(n) =~= lags);
        if n > 0 {
            assert(lags.drop_last() =~= lags.take(n - 1));
            lemma_lag_sum_grows(lags.drop_last(), n - 1);
            assert(lags.drop_last().take(n - 1) =~= lags.drop_last());
        }
    } else {
        lemma_lag_sum_grows(lags.drop_last(), n);
        assert(lags.drop_last().take(n) =~= lags.take(n));
    }
}

fn total_lag(lags: &Vec<PartitionLag>) -> (r: Option<i64>)
    ensures
        match r {
            Some(total) => total == lag_sum(lags@),
            None => lag_sum(lags@) > i64::MAX,
        },
{
    let mut total: i64 = 0;
    let mut i: usize = 0;
    assert(lags@.take(0) =~= Seq::<PartitionLag>::empty());
    while i < lags.len()
        invariant
            i <= lags@.len(),
            total == lag_sum(lags@.take(i as int)),
            total >= 0,
        decreases lags@.len() - i,
    {
        proof {
            let longer = lags@.take(i + 1);
            assert(longer.drop_last() =~= lags@.take(i as int));
            assert(longer.last() == lags@[i as int]);
            lemma_lag_sum_grows(lags@, i + 1);
        }
        if lags[i].lag >= 0 {
            match total.checked_add(lags[i].lag) {
                Some(sum) => {
                    total = sum;
                },
                None => {
                    return None;
                },
            }
        }
        i = i + 1;
    }
    assert(lags@.take(lags@.len() as int) =~= lags@);
    Some(total)
}

/// Whether every total lag fits in 64 bits.
pub fn lags_fit(topic: &str, fetched: &Vec<(String, Vec<GroupOffset>)>) -> (r: bool)
    ensures
        r == totals_fit(topic@, fetched@),
{
    let mut i: usize = 0;
    while i < fetched.len()
        invariant
            i <= fetched@.len(),
            forall|k: int|
                0 <= k < i ==> lag_sum(
                    lags_on((#[trigger] fetched@[k]).1@, topic@, fetched@[k].1@.len()),
                ) <= i64::MAX,
        decreases fetched@.len() - i,
    {
        let lags = lags_of(&fetched[i].1, topic);
        if total_lag(&lags).is_none() {
            assert(lag_sum(lags_on(fetched@[i as int].1@, topic@, fetched@[i as int].1@.len()))
                > i64::MAX);
            return false;
        }
        i = i + 1;
    }
    true
}

fn find_description(descriptions: &Vec<GroupDescription>, group: &String) -> (r: Option<usize>)
    ensures
        description_of(descriptions@, group@, descriptions@.len()) == (match r {
            Some(i) => Some(i as int),
            None => None,
        }),
        r matches Some(i) ==> i < descriptions@.len(),
{
    let mut n: usize = descriptions.len();
    while n > 0
        invariant
            n <= descriptions@.len(),
            description_of(descriptions@, group@, descriptions@.len()) == description_of(
                descriptions@,
                group@,
                n as nat,
            ),
        decreases n,
    {
        if descriptions[n - 1].group_id == *group {
            return Some(n - 1);
        }
        n = n - 1;
    }
    None
}

/// The groups that consume the topic, as far as their offsets were fetched. Where a group was
/// described more than once, the last description counts.
pub fn consumers_on_topic(
    topic: &str,
    descriptions: &Vec<GroupDescription>,
    fetched: &Vec<(String, Vec<GroupOffset>)>,
) -> (r: Vec<ConsumerGroup>)
    requires
        totals_fit(topic@, fetched@),
    ensures
        r@.map_values(|g: ConsumerGroup| g@) == groups_on(
            topic@,
            descriptions@,
            fetched@,
            fetched@.len(),
        ),
{
    let mut r: Vec<ConsumerGroup> = Vec::new();
    let mut i: usize = 0;
    assert(r@.map_values(|g: ConsumerGroup| g@) =~= Seq::empty());
    while i < fetched.len()
        invariant
            i <= fetched@.len(),
            totals_fit(topic@, fetched@),
            r@.map_values(|g: ConsumerGroup| g@) == groups_on(
                topic@,
                descriptions@,
                fetched@,
                i as nat,
            ),
        decreases fetched@.len() - i,
    {
        let ghost before = r@.map_values(|g: ConsumerGroup| g@);
        let lags = lags_of(&fetched[i].1, topic);
        assert(lag_sum(lags_on(fetched@[i as int].1@, topic@, fetched@[i as int].1@.len()))
            <= i64::MAX);
        if lags.len() > 0 {
            let described_by = find_description(descriptions, &fetched[i].0);
            let total: i64 = match total_lag(&lags) {
                Some(total) => total,
                None => 0,
            };
            let group = ConsumerGroup {
                group: fetched[i].0.clone(),
                state: match described_by {
                    Some(d) => descriptions[d].state.clone(),
                    None => "Unknown".to_owned(),
                },
                described_by,
                partitions: lags,
                total_lag: total,
            };
            let ghost shown = group@;
            assert(shown =~= group_on(topic@, descriptions@, fetched@[i as int].0@, lags@));
            r.push(group);
            assert(r@.map_values(|g: ConsumerGroup| g@) =~= before.push(shown));
        }
        i = i + 1;
    }
    r
}

/// What is shown of a group on a topic is each of its offsets on that topic, in their order, with
/// its partition, its positions and its lag.
pub proof fn topic_offsets_are_shown(offsets: Seq<GroupOffset>, topic: Seq<char>, n: nat) -> (at:
    Seq<int>)
    ensures
        select::positions(at, n as int, |i: int| offsets[i].topic@ == topic),
        lags_on(offsets, topic, n).len() == at.len(),
        forall|k: int|
            0 <= k < at.len() ==> {
                let shown = #[trigger] lags_on(offsets, topic, n)[k];
                let o = offsets[at[k]];
                &&& shown.partition == o.partition
                &&& shown.committed_offset == o.committed_offset
                &&& shown.log_end_offset == o.log_end_offset
                &&& shown.lag == o.lag
            },
    decreases n,
{
    let wanted = |i: int| offsets[i].topic@ == topic;
    if n == 0 {
        Seq::empty()
    } else {
        let k = n - 1;
        let earlier = topic_offsets_are_shown(offsets, topic, k as nat);
        select::position_is_added(earlier, k, wanted);
        if wanted(k) {
            earlier.push(k)
        } else {
            earlier
        }
    }
}

/// The total lag of two lists is the sum of theirs, one lag counts for itself where it is known,
/// and an unknown one, which is negative, for nothing.
pub proof fn lags_add_up(a: Seq<PartitionLag>, b: Seq<PartitionLag>, one: PartitionLag)
    ensures
        lag_sum(a + b) == lag_sum(a) + lag_sum(b),
        one.lag >= 0 ==> lag_sum(seq![one]) == one.lag,
        one.lag < 0 ==> lag_sum(seq![one]) == 0,
        lag_sum(Seq::empty()) == 0,
    decreases b.len(),
{
    assert(seq![one].drop_last() =~= Seq::<PartitionLag>::empty());
    assert(lag_sum(seq![one].drop_last()) == 0);
    if b.len() == 0 {
        assert(a + b =~= a);
    } else {
        lags_add_up(a, b.drop_last(), one);
        assert((a + b).drop_last() =~= a + b.drop_last());
    }
}

/// Where a group was described more than once, the last description counts.
pub proof fn last_description_counts(
    descriptions: Seq<GroupDescription>,
    group: Seq<char>,
    n: nat,
)
    ensures
        match description_of(descriptions, group, n) {
            Some(i) => 0 <= i < n && descriptions[i].group_id@ == group && forall|k: int|
                i < k < n ==> (#[trigger] descriptions[k]).group_id@ != group,
            None => forall|k: int| 0 <= k < n ==> (#[trigger] descriptions[k]).group_id@ != group,
        },
    decreases n,
{
    if n > 0 {
        last_description_counts(descriptions, group, (n - 1) as nat);
    }
}

/// A fetched group is in the answer exactly where one of its offsets is on the topic, whatever its
/// lag. The groups keep their order. Each is shown with its own id, the state and the position of
/// its last description, or `Unknown` and none, its offsets on the topic, and their total lag.
pub proof fn consumers_are_those_with_offsets(
    topic: Seq<char>,
    descriptions: Seq<GroupDescription>,
    fetched: Seq<(String, Vec<GroupOffset>)>,
    n: nat,
) -> (at: Seq<int>)
    ensures
        select::positions(
            at,
            n as int,
            |i: int|
                exists|j: int|
                    0 <= j < fetched[i].1@.len() && (#[trigger] fetched[i].1@[j]).topic@ == topic,
        ),
        groups_on(topic, descriptions, fetched, n).len() == at.len(),
        forall|k: int|
            0 <= k < at.len() ==> {
                let shown = #[trigger] groups_on(topic, descriptions, fetched, n)[k];
                let (id, offsets) = (fetched[at[k]].0@, fetched[at[k]].1@);
                &&& shown.group == id
                &&& shown.partitions == lags_on(offsets, topic, offsets.len())
                &&& shown.total_lag == lag_sum(lags_on(offsets, topic, offsets.len()))
                &&& shown.described_by == description_of(descriptions, id, descriptions.len())
                &&& shown.described_by matches Some(d) ==> shown.state == descriptions[d].state@
                &&& shown.described_by is None ==> shown.state == "Unknown"@
            },
    decreases n,
{
    let wanted = |i: int|
        exists|j: int|
            0 <= j < fetched[i].1@.len() && (#[trigger] fetched[i].1@[j]).topic@ == topic;
    if n == 0 {
        Seq::empty()
    } else {
        let k = n - 1;
        let earlier = consumers_are_those_with_offsets(topic, descriptions, fetched, k as nat);
        select::position_is_added(earlier, k, wanted);
        let offsets = fetched[k].1@;
        let on_topic = topic_offsets_are_shown(offsets, topic, offsets.len());
        if wanted(k) {
            let j = choose|j: int|
                0 <= j < offsets.len() && (#[trigger] offsets[j]).topic@ == topic;
            assert((|i: int| offsets[i].topic@ == topic)(j));
            assert(on_topic.contains(j));
            earlier.push(k)
        } else {
            if on_topic.len() > 0 {
                let j = on_topic[0];
                assert((|i: int| offsets[i].topic@ == topic)(j));
                assert(fetched[k].1@[j].topic@ == topic);
            }
            earlier
        }
    }
}

/// The end of a partition's log.
#[derive(Clone, Copy, Debug, PartialEq, Eq, Structural)]
pub struct LogEnd {
    pub partition: i32,
    pub end: i64,
}

impl Ranked for LogEnd {
    open spec fn at_most(&self, other: &Self) -> bool {
        self.partition <= other.partition
    }

    proof fn ranks_are_total(a: &Self, b: &Self) {
    }

    proof fn ranks_are_transitive(a: &Self, b: &Self, c: &Self) {
    }

    fn is_at_most(&self, other: &Self) -> (r: bool) {
        self.partition <= other.partition
    }
}

/// What a broker says of a partition: its number, an error code, and the end of its log.
#[derive(Clone, Copy, Debug, PartialEq, Eq, Structural)]
pub struct ListedOffset {
    pub partition: i32,
    pub error_code: i16,
    pub offset: i64,
}

/// The ends among the first `n` partitions of one topic that have no error.
pub open spec fn ends_of(listed: Seq<ListedOffset>, n: nat) -> Seq<LogEnd>
    decreases n,
{
    if n == 0 {
        Seq::empty()
    } else if listed[n - 1].error_code == 0 {
        ends_of(listed, (n - 1) as nat).push(
            LogEnd { partition: listed[n - 1].partition, end: listed[n - 1].offset },
        )
    } else {
        ends_of(listed, (n - 1) as nat)
    }
}

/// The ends among the first `n` topics of an answer that belong to this topic.
pub open spec fn ends_on(
    topic: Seq<char>,
    answer: Seq<(String, Vec<ListedOffset>)>,
    n: nat,
) -> Seq<LogEnd>
    decreases n,
{
    if n == 0 {
        Seq::empty()
    } else {
        let before = ends_on(topic, answer, (n - 1) as nat);
        if answer[n - 1].0@ == topic {
            before + ends_of(answer[n - 1].1@, answer[n - 1].1@.len())
        } else {
            before
        }
    }
}

/// The ends of the topic's partitions, by partition.
pub fn log_ends(topic: &str, answer: &Vec<(String, Vec<ListedOffset>)>) -> (r: Vec<LogEnd>)
    ensures
        r@ == sort::sorted(ends_on(topic@, answer@, answer@.len())),
{
    let wanted = topic.to_owned();
    let mut ends: Vec<LogEnd> = Vec::new();
    let mut i: usize = 0;
    while i < answer.len()
        invariant
            i <= answer@.len(),
            wanted@ == topic@,
            ends@ == ends_on(topic@, answer@, i as nat),
        decreases answer@.len() - i,
    {
        if answer[i].0 == wanted {
            let listed = &answer[i].1;
            let ghost before = ends@;
            let mut k: usize = 0;
            assert(ends@ =~= before + ends_of(listed@, 0));
            while k < listed.len()
                invariant
                    k <= listed@.len(),
                    ends@ == before + ends_of(listed@, k as nat),
                decreases listed@.len() - k,
            {
                if listed[k].error_code == 0 {
                    ends.push(LogEnd { partition: listed[k].partition, end: listed[k].offset });
                }
                k = k + 1;
                assert(ends@ =~= before + ends_of(listed@, k as nat));
            }
        }
        i = i + 1;
    }
    stable_sort(ends)
}

/// The ends of one listing are those of its partitions without an error, in their order.
pub proof fn sound_ends_are_kept(listed: Seq<ListedOffset>, n: nat) -> (at: Seq<int>)
    ensures
        select::positions(at, n as int, |i: int| listed[i].error_code == 0),
        ends_of(listed, n).len() == at.len(),
        forall|k: int|
            0 <= k < at.len() ==> (#[trigger] ends_of(listed, n)[k]).partition
                == listed[at[k]].partition && ends_of(listed, n)[k].end == listed[at[k]].offset,
    decreases n,
{
    let wanted = |i: int| listed[i].error_code == 0;
    if n == 0 {
        Seq::empty()
    } else {
        let k = n - 1;
        let earlier = sound_ends_are_kept(listed, k as nat);
        select::position_is_added(earlier, k, wanted);
        if wanted(k) {
            earlier.push(k)
        } else {
            earlier
        }
    }
}

/// The ends on a topic are those of the listings under its name, one behind the other, and none of
/// another topic. Sorting puts them in the order of their partitions.
pub proof fn ends_of_the_topic_are_kept(
    topic: Seq<char>,
    answer: Seq<(String, Vec<ListedOffset>)>,
    n: nat,
    i: int,
)
    requires
        0 <= i < n,
    ensures
        ends_on(topic, answer, 0).len() == 0,
        answer[i].0@ == topic ==> ends_on(topic, answer, (i + 1) as nat) == ends_on(
            topic,
            answer,
            i as nat,
        ) + ends_of(answer[i].1@, answer[i].1@.len()),
        answer[i].0@ != topic ==> ends_on(topic, answer, (i + 1) as nat) == ends_on(
            topic,
            answer,
            i as nat,
        ),
        ({
            let shown = sort::sorted(ends_on(topic, answer, n));
            &&& shown.to_multiset() == ends_on(topic, answer, n).to_multiset()
            &&& forall|a: int, b: int|
                0 <= a < b < shown.len() ==> (#[trigger] shown[a]).partition <= (
                #[trigger] shown[b]).partition
        }),
{
    let ends = ends_on(topic, answer, n);
    sort::sorting_orders(ends);
    let shown = sort::sorted(ends);
    assert forall|a: int, b: int| 0 <= a < b < shown.len() implies (#[trigger] shown[a]).partition
        <= (#[trigger] shown[b]).partition by {
        assert(shown[a].at_most(&shown[b]));
    }
}

/// The partitions of the first `n` topics, one topic after the other.
pub open spec fn all_of(topics: Seq<Vec<i32>>, n: nat) -> Seq<i32>
    decreases n,
{
    if n == 0 {
        Seq::empty()
    } else {
        all_of(topics, (n - 1) as nat) + topics[n - 1]@
    }
}

/// The partitions of all topics, one topic after the other.
pub fn all_partitions(topics: &Vec<Vec<i32>>) -> (r: Vec<i32>)
    ensures
        r@ == all_of(topics@, topics@.len()),
{
    let mut r: Vec<i32> = Vec::new();
    let mut i: usize = 0;
    while i < topics.len()
        invariant
            i <= topics@.len(),
            r@ == all_of(topics@, i as nat),
        decreases topics@.len() - i,
    {
        let ghost before = r@;
        let mut k: usize = 0;
        assert(r@ =~= before + topics@[i as int]@.take(0));
        while k < topics[i].len()
            invariant
                i < topics@.len(),
                k <= topics@[i as int]@.len(),
                r@ == before + topics@[i as int]@.take(k as int),
            decreases topics@[i as int]@.len() - k,
        {
            r.push(topics[i][k]);
            k = k + 1;
            assert(r@ =~= before + topics@[i as int]@.take(k as int));
        }
        assert(topics@[i as int]@.take(k as int) =~= topics@[i as int]@);
        i = i + 1;
    }
    r
}

/// Each topic's partitions stand together, in their order, behind those of the topics before it.
pub proof fn partitions_stand_together(topics: Seq<Vec<i32>>, n: nat, i: int)
    requires
        0 <= i < n,
    ensures
        all_of(topics, 0).len() == 0,
        all_of(topics, (i + 1) as nat).len() == all_of(topics, i as nat).len() + topics[i]@.len(),
        all_of(topics, (i + 1) as nat).len() <= all_of(topics, n).len(),
        all_of(topics, n).subrange(
            all_of(topics, i as nat).len() as int,
            all_of(topics, (i + 1) as nat).len() as int,
        ) == topics[i]@,
    decreases n,
{
    let start = all_of(topics, i as nat).len() as int;
    let end = all_of(topics, (i + 1) as nat).len() as int;
    if i == n - 1 {
        assert(all_of(topics, n).subrange(start, end) =~= topics[i]@);
    } else {
        partitions_stand_together(topics, (n - 1) as nat, i);
        assert(all_of(topics, n).subrange(start, end) =~= all_of(
            topics,
            (n - 1) as nat,
        ).subrange(start, end));
    }
}

/// The offsets of a partition that are shown: from `start` up to, and without, `end`.
#[derive(Clone, Copy, Debug, PartialEq, Eq, Structural)]
pub struct Window {
    pub partition: i32,
    pub start: i64,
    pub end: i64,
}

/// The last `count` offsets of a partition.
pub open spec fn window_of(end: LogEnd, count: int) -> Window {
    Window {
        partition: end.partition,
        start: if end.end - count > 0 {
            (end.end - count) as i64
        } else {
            0
        },
        end: end.end,
    }
}

/// The last `count` offsets of each of the first `n` partitions that are not empty.
pub open spec fn windows_of(ends: Seq<LogEnd>, count: int, n: nat) -> Seq<Window>
    decreases n,
{
    if n == 0 {
        Seq::empty()
    } else if ends[n - 1].end > 0 {
        windows_of(ends, count, (n - 1) as nat).push(window_of(ends[n - 1], count))
    } else {
        windows_of(ends, count, (n - 1) as nat)
    }
}

/// The last `count` offsets of each partition that is not empty.
pub fn windows(ends: &Vec<LogEnd>, count: usize) -> (r: Vec<Window>)
    requires
        count <= i64::MAX,
    ensures
        r@ == windows_of(ends@, count as int, ends@.len()),
{
    let mut r: Vec<Window> = Vec::new();
    let mut i: usize = 0;
    while i < ends.len()
        invariant
            i <= ends@.len(),
            count <= i64::MAX,
            r@ == windows_of(ends@, count as int, i as nat),
        decreases ends@.len() - i,
    {
        let end: i64 = ends[i].end;
        if end > 0 {
            let start: i64 = if end > count as i64 {
                end - count as i64
            } else {
                0
            };
            r.push(Window { partition: ends[i].partition, start, end });
        }
        i = i + 1;
    }
    r
}

/// A window starts within the log and holds no more than `count` offsets.
pub proof fn windows_are_short(ends: Seq<LogEnd>, count: int, n: nat, i: int)
    requires
        0 <= count <= i64::MAX,
        n <= ends.len(),
        0 <= i < windows_of(ends, count, n).len(),
    ensures
        ({
            let w = windows_of(ends, count, n)[i];
            &&& 0 <= w.start <= w.end
            &&& w.end - w.start <= count
        }),
    decreases n,
{
    if n > 0 && i < windows_of(ends, count, (n - 1) as nat).len() {
        windows_are_short(ends, count, (n - 1) as nat, i);
    }
}

/// There is a window for each partition that is not empty, in their order. It ends where the log
/// ends, and starts `count` offsets before that, or at the start of the log.
pub proof fn windows_end_with_the_log(ends: Seq<LogEnd>, count: int, n: nat) -> (at: Seq<int>)
    requires
        0 <= count <= i64::MAX,
    ensures
        select::positions(at, n as int, |i: int| ends[i].end > 0),
        windows_of(ends, count, n).len() == at.len(),
        forall|k: int|
            0 <= k < at.len() ==> {
                let w = #[trigger] windows_of(ends, count, n)[k];
                &&& w.partition == ends[at[k]].partition
                &&& w.end == ends[at[k]].end
                &&& w.end >= count ==> w.start == w.end - count
                &&& w.end < count ==> w.start == 0
            },
    decreases n,
{
    let wanted = |i: int| ends[i].end > 0;
    if n == 0 {
        Seq::empty()
    } else {
        let k = n - 1;
        let earlier = windows_end_with_the_log(ends, count, k as nat);
        select::position_is_added(earlier, k, wanted);
        if wanted(k) {
            earlier.push(k)
        } else {
            earlier
        }
    }
}

/// How many messages are shown: what the request asks for, or the default, but at least one and at
/// most a thousand.
pub fn message_count(asked: Option<usize>, default_count: usize) -> (r: usize)
    ensures
        ({
            let n = match asked {
                Some(n) => n,
                None => default_count,
            };
            r == (if n < 1 {
                1
            } else if n > 1000 {
                1000
            } else {
                n
            })
        }),
{
    let n: usize = match asked {
        Some(n) => n,
        None => default_count,
    };
    if n < 1 {
        1
    } else if n > 1000 {
        1000
    } else {
        n
    }
}

/// How many messages a poll may bring: `count` for each partition, and some to spare. There is no
/// such number where it does not fit.
pub fn poll_limit(count: usize, partitions: usize) -> (r: Option<usize>)
    ensures
        match r {
            Some(n) => n == count * partitions + 16,
            None => count * partitions + 16 > usize::MAX,
        },
{
    match count.checked_mul(partitions) {
        Some(n) => n.checked_add(16),
        None => None,
    }
}

/// A message.
#[derive(Debug)]
pub struct Record {
    pub partition: i32,
    pub offset: i64,
    pub timestamp: i64,
    pub key: Option<Vec<u8>>,
    pub value: Vec<u8>,
    pub headers: Vec<(String, Vec<u8>)>,
}

impl Ranked for Record {
    open spec fn at_most(&self, other: &Self) -> bool {
        self.partition < other.partition || (self.partition == other.partition && self.offset
            <= other.offset)
    }

    proof fn ranks_are_total(a: &Self, b: &Self) {
    }

    proof fn ranks_are_transitive(a: &Self, b: &Self, c: &Self) {
    }

    fn is_at_most(&self, other: &Self) -> (r: bool) {
        self.partition < other.partition || (self.partition == other.partition && self.offset
            <= other.offset)
    }
}

/// The first window, from number `from` on, of this partition.
pub open spec fn window_for(windows: Seq<Window>, partition: i32, from: nat) -> Option<Window>
    decreases windows.len() - from,
{
    if from >= windows.len() {
        None
    } else if windows[from as int].partition == partition {
        Some(windows[from as int])
    } else {
        window_for(windows, partition, from + 1)
    }
}

/// The message is in the window of its partition.
pub open spec fn in_window(windows: Seq<Window>, r: Record) -> bool {
    match window_for(windows, r.partition, 0) {
        Some(w) => w.start <= r.offset < w.end,
        None => false,
    }
}

fn is_in_window(windows: &Vec<Window>, r: &Record) -> (b: bool)
    ensures
        b == in_window(windows@, *r),
{
    let mut i: usize = 0;
    while i < windows.len()
        invariant
            i <= windows@.len(),
            window_for(windows@, r.partition, 0) == window_for(windows@, r.partition, i as nat),
        decreases windows@.len() - i,
    {
        if windows[i].partition == r.partition {
            return windows[i].start <= r.offset && r.offset < windows[i].end;
        }
        i = i + 1;
    }
    false
}

/// How many of the messages are of this partition.
pub open spec fn held(records: Seq<Record>, partition: i32) -> nat
    decreases records.len(),
{
    if records.len() == 0 {
        0
    } else {
        held(records.drop_last(), partition) + (if records.last().partition == partition {
            1nat
        } else {
            0nat
        })
    }
}

/// The first window of a message's partition decides: the message is in it where its offset is not
/// before the start and before the end. Without a window of its partition, it is in none.
pub proof fn first_window_decides(windows: Seq<Window>, r: Record, i: int)
    requires
        0 <= i <= windows.len(),
        forall|k: int| 0 <= k < i ==> (#[trigger] windows[k]).partition != r.partition,
        i < windows.len() ==> windows[i].partition == r.partition,
    ensures
        in_window(windows, r) <==> i < windows.len() && windows[i].start <= r.offset && r.offset
            < windows[i].end,
{
    lemma_window_for(windows, r.partition, 0, i);
}

proof fn lemma_window_for(windows: Seq<Window>, partition: i32, from: nat, i: int)
    requires
        from <= i <= windows.len(),
        forall|k: int| from <= k < i ==> (#[trigger] windows[k]).partition != partition,
        i < windows.len() ==> windows[i].partition == partition,
    ensures
        window_for(windows, partition, from) == (if i < windows.len() {
            Some(windows[i])
        } else {
            None
        }),
    decreases i - from,
{
    if from < i {
        lemma_window_for(windows, partition, from + 1, i);
    }
}

/// The messages of a partition are counted one by one: those of two lists together are the sum, a
/// message counts once for its own partition, and for no other.
pub proof fn messages_are_counted(a: Seq<Record>, b: Seq<Record>, one: Record, partition: i32)
    ensures
        held(a + b, partition) == held(a, partition) + held(b, partition),
        held(seq![one], partition) == (if one.partition == partition {
            1nat
        } else {
            0nat
        }),
        held(Seq::empty(), partition) == 0,
    decreases b.len(),
{
    assert(seq![one].drop_last() =~= Seq::<Record>::empty());
    assert(held(seq![one].drop_last(), partition) == 0);
    if b.len() == 0 {
        assert(a + b =~= a);
    } else {
        messages_are_counted(a, b.drop_last(), one, partition);
        assert((a + b).drop_last() =~= a + b.drop_last());
    }
}

/// Each window is full.
pub open spec fn is_done(collected: Seq<Record>, windows: Seq<Window>) -> bool {
    forall|i: int|
        0 <= i < windows.len() ==> held(collected, (#[trigger] windows[i]).partition)
            >= windows[i].end - windows[i].start
}

/// All is collected exactly where each partition has as many messages as its window has offsets.
pub proof fn all_is_collected_when_every_window_is_full(
    collected: Seq<Record>,
    windows: Seq<Window>,
    i: int,
)
    requires
        0 <= i < windows.len(),
    ensures
        held(collected, windows[i].partition) < windows[i].end - windows[i].start ==> !is_done(
            collected,
            windows,
        ),
        is_done(collected, windows) ==> held(collected, windows[i].partition) >= windows[i].end
            - windows[i].start,
        !is_done(collected, windows) ==> exists|k: int|
            0 <= k < windows.len() && held(collected, (#[trigger] windows[k]).partition)
                < windows[k].end - windows[k].start,
{
}

fn count_held(records: &Vec<Record>, partition: i32) -> (r: usize)
    ensures
        r == held(records@, partition),
{
    let mut n: usize = 0;
    let mut i: usize = 0;
    assert(records@.take(0) =~= Seq::<Record>::empty());
    while i < records.len()
        invariant
            i <= records@.len(),
            n <= i,
            n == held(records@.take(i as int), partition),
        decreases records@.len() - i,
    {
        assert(records@.take(i + 1).drop_last() =~= records@.take(i as int));
        if records[i].partition == partition {
            n = n + 1;
        }
        i = i + 1;
    }
    assert(records@.take(records@.len() as int) =~= records@);
    n
}

/// Whether each window is full.
pub fn all_partitions_done(collected: &Vec<Record>, windows: &Vec<Window>) -> (r: bool)
    requires
        forall|i: int|
            0 <= i < windows@.len() ==> 0 <= (#[trigger] windows@[i]).start <= windows@[i].end,
    ensures
        r == is_done(collected@, windows@),
{
    let mut i: usize = 0;
    while i < windows.len()
        invariant
            i <= windows@.len(),
            forall|k: int|
                0 <= k < windows@.len() ==> 0 <= (#[trigger] windows@[k]).start <= windows@[k].end,
            forall|k: int|
                0 <= k < i ==> held(collected@, (#[trigger] windows@[k]).partition)
                    >= windows@[k].end - windows@[k].start,
        decreases windows@.len() - i,
    {
        let have: usize = count_held(collected, windows[i].partition);
        let available: i64 = windows[i].end - windows[i].start;
        if (have as u64) < available as u64 {
            assert(held(collected@, windows@[i as int].partition) < windows@[i as int].end
                - windows@[i as int].start);
            return false;
        }
        i = i + 1;
    }
    true
}

/// The messages that are being collected for an answer.
pub struct Collector {
    pub windows: Vec<Window>,
    /// How many messages are enough.
    pub wanted: usize,
    /// When to stop.
    pub deadline: u64,
    pub collected: Vec<Record>,
}

impl Collector {
    pub open spec fn wf(self) -> bool {
        forall|i: int|
            0 <= i < self.windows@.len() ==> 0 <= (#[trigger] self.windows@[i]).start
                <= self.windows@[i].end
    }

    /// A collector of `count` messages from each partition that is not empty.
    pub fn new(ends: &Vec<LogEnd>, count: usize, deadline: u64) -> (r: Self)
        requires
            count <= i64::MAX,
            count * ends@.len() <= usize::MAX,
        ensures
            r.wf(),
            r.windows@ == windows_of(ends@, count as int, ends@.len()),
            r.wanted == count * r.windows@.len(),
            r.deadline == deadline,
            r.collected@.len() == 0,
    {
        let windows = windows(ends, count);
        proof {
            assert forall|i: int| 0 <= i < windows@.len() implies 0 <= (
            #[trigger] windows@[i]).start <= windows@[i].end by {
                windows_are_short(ends@, count as int, ends@.len(), i);
            }
            lemma_windows_are_few(ends@, count as int, ends@.len());
            vstd::arithmetic::mul::lemma_mul_inequality(
                windows@.len() as int,
                ends@.len() as int,
                count as int,
            );
            vstd::arithmetic::mul::lemma_mul_is_commutative(count as int, ends@.len() as int);
            vstd::arithmetic::mul::lemma_mul_is_commutative(count as int, windows@.len() as int);
        }
        let wanted: usize = count * windows.len();
        Collector { windows, wanted, deadline, collected: Vec::new() }
    }

    /// Whether to ask for more messages.
    pub fn wants_more(&self, now: u64) -> (r: bool)
        ensures
            r == (self.collected@.len() < self.wanted && now < self.deadline),
    {
        self.collected.len() < self.wanted && now < self.deadline
    }

    /// Messages have come: those in their windows are kept. The result tells whether each window is
    /// full.
    pub fn on_batch(&mut self, batch: Vec<Record>) -> (r: bool)
        requires
            old(self).wf(),
        ensures
            final(self).wf(),
            final(self).windows == old(self).windows,
            final(self).wanted == old(self).wanted,
            final(self).deadline == old(self).deadline,
            final(self).collected@ == old(self).collected@ + batch@.filter(
                |m: Record| in_window(old(self).windows@, m),
            ),
            r == is_done(final(self).collected@, old(self).windows@),
    {
        let ghost all = batch@;
        let ghost before = self.collected@;
        let ghost keep = |m: Record| in_window(old(self).windows@, m);
        proof {
            reveal(Seq::filter);
            assert(all.take(0) =~= Seq::<Record>::empty());
            assert(self.collected@ =~= before + all.take(0).filter(keep));
        }
        for m in iter: batch.into_iter()
            invariant
                iter.seq() == all,
                self.windows == old(self).windows,
                self.wanted == old(self).wanted,
                self.deadline == old(self).deadline,
                keep == (|m: Record| in_window(old(self).windows@, m)),
                self.collected@ == before + all.take(iter.index() as int).filter(keep),
        {
            proof {
                reveal(Seq::filter);
                assert(all.take(iter.index() + 1).drop_last() =~= all.take(iter.index() as int));
                assert(all.take(iter.index() + 1).last() == m);
            }
            if is_in_window(&self.windows, &m) {
                self.collected.push(m);
            }
            assert(self.collected@ =~= before + all.take(iter.index() + 1).filter(keep));
        }
        assert(all.take(all.len() as int) =~= all);
        all_partitions_done(&self.collected, &self.windows)
    }
}

proof fn lemma_windows_are_few(ends: Seq<LogEnd>, count: int, n: nat)
    ensures
        windows_of(ends, count, n).len() <= n,
    decreases n,
{
    if n > 0 {
        lemma_windows_are_few(ends, count, (n - 1) as nat);
    }
}

/// The last `count` messages of each partition, in a list that is sorted by partition and offset.
pub open spec fn latest_of(messages: Seq<Record>, count: nat) -> Seq<Record>
    decreases messages.len(),
{
    if messages.len() == 0 {
        messages
    } else {
        let later = latest_of(messages.drop_first(), count);
        if held(messages.drop_first(), messages[0].partition) < count {
            seq![messages[0]] + later
        } else {
            later
        }
    }
}

/// A message that ranks by its time.
pub struct ByTime {
    pub message: Record,
}

impl Ranked for ByTime {
    open spec fn at_most(&self, other: &Self) -> bool {
        self.message.timestamp <= other.message.timestamp
    }

    proof fn ranks_are_total(a: &Self, b: &Self) {
    }

    proof fn ranks_are_transitive(a: &Self, b: &Self, c: &Self) {
    }

    fn is_at_most(&self, other: &Self) -> (r: bool) {
        self.message.timestamp <= other.message.timestamp
    }
}

/// The messages from the oldest to the newest, those of one time in the order that they had.
pub open spec fn by_time(messages: Seq<Record>) -> Seq<ByTime> {
    sort::sorted(messages.map_values(|m: Record| ByTime { message: m }))
}

/// How many of `total` messages are too many.
pub open spec fn surplus(total: nat, count: nat) -> int {
    if total > count {
        total - count
    } else {
        0
    }
}

/// The `count` newest of the messages, or all where there are no more.
pub open spec fn newest(messages: Seq<Record>, count: nat) -> Seq<Record> {
    by_time(messages).skip(surplus(by_time(messages).len(), count)).map_values(
        |b: ByTime| b.message,
    )
}

/// The messages of an answer: of the last `count` of each partition, the `count` newest, by
/// partition and offset.
pub open spec fn answer_of(collected: Seq<Record>, count: nat) -> Seq<Record> {
    sort::sorted(newest(latest_of(sort::sorted(collected), count), count))
}

/// The `count` latest messages of the topic, by partition and offset: of the last `count` of each
/// partition, the `count` newest by their time.
pub fn select_recent(collected: Vec<Record>, count: usize) -> (r: Vec<Record>)
    ensures
        r@ == answer_of(collected@, count as nat),
        r@.len() <= count,
{
    let ghost all = collected@;
    let latest = latest_by_partition(collected, count);
    let ghost candidates = latest@;
    let ghost ranked = candidates.map_values(|m: Record| ByTime { message: m });
    let mut timed: Vec<ByTime> = Vec::new();
    assert(timed@ =~= ranked.take(0));
    for m in iter: latest.into_iter()
        invariant
            iter.seq() == candidates,
            ranked == candidates.map_values(|m: Record| ByTime { message: m }),
            timed@ == ranked.take(iter.index() as int),
    {
        timed.push(ByTime { message: m });
        assert(timed@ =~= ranked.take(iter.index() + 1));
    }
    assert(ranked.take(ranked.len() as int) =~= ranked);
    let ordered = stable_sort(timed);
    let ghost times = ordered@;
    let total: usize = ordered.len();
    let skipped: usize = if total > count {
        total - count
    } else {
        0
    };
    let ghost wanted = newest(candidates, count as nat);
    let mut shown: Vec<Record> = Vec::new();
    let mut at: usize = 0;
    assert(shown@ =~= wanted.take(0));
    for b in iter: ordered.into_iter()
        invariant
            iter.seq() == times,
            times.len() == total,
            at == iter.index(),
            skipped == surplus(times.len(), count as nat),
            times == by_time(candidates),
            wanted == newest(candidates, count as nat),
            shown@ == wanted.take(
                if at > skipped {
                    at - skipped
                } else {
                    0
                },
            ),
    {
        assert(at < times.len());
        if at >= skipped {
            assert(wanted[at - skipped] == b.message);
            shown.push(b.message);
            assert(shown@ =~= wanted.take(at - skipped + 1));
        }
        at = at + 1;
    }
    proof {
        assert(wanted.take(wanted.len() as int) =~= wanted);
        answer_is_short(all, count as nat);
    }
    stable_sort(shown)
}

/// The last `count` messages of each partition, by partition and offset.
fn latest_by_partition(collected: Vec<Record>, count: usize) -> (r: Vec<Record>)
    ensures
        r@ == latest_of(sort::sorted(collected@), count as nat),
{
    let messages = stable_sort(collected);
    let ghost all = messages@;
    let mut keep: Vec<bool> = Vec::new();
    let mut i: usize = 0;
    while i < messages.len()
        invariant
            i <= messages@.len(),
            messages@ == all,
            keep@.len() == i,
            forall|k: int|
                0 <= k < i ==> #[trigger] keep@[k] == (held(all.skip(k + 1), all[k].partition)
                    < count),
        decreases messages@.len() - i,
    {
        let later: usize = count_held_from(&messages, i + 1, messages[i].partition);
        keep.push(later < count);
        i = i + 1;
    }
    let mut r: Vec<Record> = Vec::new();
    let mut at: usize = 0;
    assert(all.skip(0) =~= all);
    for m in iter: messages.into_iter()
        invariant
            iter.seq() == all,
            at == iter.index(),
            keep@.len() == all.len(),
            forall|k: int|
                0 <= k < all.len() ==> #[trigger] keep@[k] == (held(
                    all.skip(k + 1),
                    all[k].partition,
                ) < count),
            r@ + latest_of(all.skip(iter.index() as int), count as nat) == latest_of(
                all,
                count as nat,
            ),
    {
        proof {
            let rest = all.skip(at as int);
            assert(at < all.len());
            assert(rest[0] == m);
            assert(rest.drop_first() =~= all.skip(at + 1));
            assert(r@ + (seq![m] + latest_of(all.skip(at + 1), count as nat)) =~= r@.push(m)
                + latest_of(all.skip(at + 1), count as nat));
        }
        assert(at < keep.len());
        if keep[at] {
            r.push(m);
        }
        at = at + 1;
    }
    proof {
        assert(all.skip(all.len() as int).len() == 0);
        assert(r@ + latest_of(all.skip(all.len() as int), count as nat) =~= r@);
    }
    r
}

fn count_held_from(records: &Vec<Record>, from: usize, partition: i32) -> (r: usize)
    requires
        from <= records@.len(),
    ensures
        r == held(records@.skip(from as int), partition),
{
    let ghost rest = records@.skip(from as int);
    let mut n: usize = 0;
    let mut i: usize = from;
    assert(rest.take(0) =~= Seq::<Record>::empty());
    while i < records.len()
        invariant
            from <= i <= records@.len(),
            rest == records@.skip(from as int),
            n <= i - from,
            n == held(rest.take(i - from), partition),
        decreases records@.len() - i,
    {
        assert(rest.take(i - from + 1).drop_last() =~= rest.take(i - from));
        assert(rest.take(i - from + 1).last() == records@[i as int]);
        if records[i].partition == partition {
            n = n + 1;
        }
        i = i + 1;
    }
    assert(rest.take(rest.len() as int) =~= rest);
    n
}

/// An answer has no more than `count` messages, and as many as were collected up to that: of those
/// that each partition can bring, none is left out while there is room.
pub proof fn answer_is_short(collected: Seq<Record>, count: nat)
    ensures
        answer_of(collected, count).len() <= count,
        ({
            let candidates = latest_of(sort::sorted(collected), count);
            answer_of(collected, count).len() == (if candidates.len() < count {
                candidates.len()
            } else {
                count
            })
        }),
{
    let candidates = latest_of(sort::sorted(collected), count);
    sort::sorting_orders(candidates.map_values(|m: Record| ByTime { message: m }));
    sort::sorting_orders(newest(candidates, count));
}

/// No message that is left out, because there are too many, is newer than one that is shown.
pub proof fn left_out_is_older(candidates: Seq<Record>, count: nat, i: int, j: int)
    requires
        0 <= i < surplus(candidates.len(), count),
        0 <= j < newest(candidates, count).len(),
    ensures
        by_time(candidates).len() == candidates.len(),
        by_time(candidates)[i].message.timestamp <= newest(candidates, count)[j].timestamp,
{
    let ranked = candidates.map_values(|m: Record| ByTime { message: m });
    sort::sorting_orders(ranked);
    let all = by_time(candidates);
    let k = surplus(all.len(), count) + j;
    assert(newest(candidates, count)[j] == all[k].message);
    assert(all[i].at_most(&all[k]));
}

/// An answer goes up by partition and offset, and every message of it was collected.
pub proof fn answer_goes_up(collected: Seq<Record>, count: nat)
    ensures
        sort::goes_up(answer_of(collected, count)),
        forall|i: int|
            0 <= i < answer_of(collected, count).len() ==> collected.contains(
                #[trigger] answer_of(collected, count)[i],
            ),
{
    broadcast use vstd::seq_lib::group_to_multiset_ensures;

    let sorted = sort::sorted(collected);
    let candidates = latest_of(sorted, count);
    let ranked = candidates.map_values(|m: Record| ByTime { message: m });
    let times = by_time(candidates);
    let chosen = newest(candidates, count);
    let answer = answer_of(collected, count);
    sort::sorting_orders(collected);
    sort::sorting_orders(ranked);
    sort::sorting_orders(chosen);
    lemma_latest_goes_up(sorted, count);
    assert forall|i: int| 0 <= i < answer.len() implies collected.contains(
        #[trigger] answer[i],
    ) by {
        assert(answer.to_multiset().count(answer[i]) > 0);
        assert(chosen.to_multiset().count(answer[i]) > 0);
        assert(chosen.contains(answer[i]));
        let j = choose|j: int| 0 <= j < chosen.len() && chosen[j] == answer[i];
        let t = times[surplus(times.len(), count) + j];
        assert(t.message == answer[i]);
        assert(times.contains(t));
        assert(times.to_multiset().count(t) > 0);
        assert(ranked.to_multiset().count(t) > 0);
        assert(ranked.contains(t));
        let k = choose|k: int| 0 <= k < ranked.len() && ranked[k] == t;
        assert(candidates[k] == answer[i]);
        assert(sorted.contains(candidates[k]));
        assert(sorted.to_multiset().count(candidates[k]) > 0);
        assert(collected.to_multiset().count(candidates[k]) > 0);
    }
}

/// No partition brings more than `count` messages, and none brings fewer than it has, up to
/// `count`.
pub proof fn partition_brings_its_latest(messages: Seq<Record>, count: nat, partition: i32)
    ensures
        held(latest_of(messages, count), partition) == (if held(messages, partition) < count {
            held(messages, partition)
        } else {
            count
        }),
    decreases messages.len(),
{
    if messages.len() > 0 {
        let rest = messages.drop_first();
        partition_brings_its_latest(rest, count, partition);
        assert(messages =~= seq![messages[0]] + rest);
        lemma_held_front(messages[0], rest, partition);
        lemma_held_front(messages[0], latest_of(rest, count), partition);
    }
}

proof fn lemma_held_front(m: Record, rest: Seq<Record>, partition: i32)
    ensures
        held(seq![m] + rest, partition) == held(rest, partition) + (if m.partition == partition {
            1nat
        } else {
            0nat
        }),
    decreases rest.len(),
{
    let all = seq![m] + rest;
    if rest.len() == 0 {
        assert(all.drop_last() =~= Seq::<Record>::empty());
        assert(all.last() == m);
        assert(held(all.drop_last(), partition) == 0);
    } else {
        assert(all.last() == rest.last());
        lemma_held_front(m, rest.drop_last(), partition);
        assert(all.drop_last() =~= seq![m] + rest.drop_last());
    }
}

proof fn lemma_latest_goes_up(messages: Seq<Record>, count: nat)
    requires
        sort::goes_up(messages),
    ensures
        sort::goes_up(latest_of(messages, count)),
        forall|i: int|
            0 <= i < latest_of(messages, count).len() ==> messages.contains(
                #[trigger] latest_of(messages, count)[i],
            ),
    decreases messages.len(),
{
    if messages.len() > 0 {
        let rest = messages.drop_first();
        assert(sort::goes_up(rest)) by {
            assert forall|i: int, j: int| 0 <= i <= j < rest.len() implies (
            #[trigger] rest[i]).at_most(#[trigger] &rest[j]) by {
                assert(messages[i + 1].at_most(&messages[j + 1]));
            }
        }
        lemma_latest_goes_up(rest, count);
        let later = latest_of(rest, count);
        let answer = latest_of(messages, count);
        assert forall|i: int| 0 <= i < later.len() implies messages.contains(
            #[trigger] later[i],
        ) && messages[0].at_most(&later[i]) by {
            assert(rest.contains(later[i]));
            let k = choose|k: int| 0 <= k < rest.len() && rest[k] == later[i];
            assert(messages[k + 1] == later[i]);
            assert(messages[0].at_most(&messages[k + 1]));
        }
        assert(messages.contains(messages[0]));
        assert forall|i: int| 0 <= i < answer.len() implies messages.contains(
            #[trigger] answer[i],
        ) by {
            if answer.len() > later.len() && i > 0 {
                assert(answer[i] == later[i - 1]);
            }
        }
        assert forall|i: int, j: int| 0 <= i <= j < answer.len() implies (
        #[trigger] answer[i]).at_most(#[trigger] &answer[j]) by {
            if answer.len() > later.len() {
                if i > 0 {
                    assert(later[i - 1].at_most(&later[j - 1]));
                } else if j > 0 {
                    assert(messages[0].at_most(&later[j - 1]));
                }
            }
        }
    }
}

/// A message of a sorted list is one of the last `count` of its partition exactly where fewer than
/// `count` messages of that partition stand behind it. The order stays.
pub proof fn last_messages_stay(messages: Seq<Record>, count: nat) -> (at: Seq<int>)
    ensures
        select::positions(
            at,
            messages.len() as int,
            |i: int| held(messages.skip(i + 1), messages[i].partition) < count,
        ),
        latest_of(messages, count).len() == at.len(),
        forall|k: int|
            0 <= k < at.len() ==> #[trigger] latest_of(messages, count)[k] == messages[at[k]],
    decreases messages.len(),
{
    if messages.len() == 0 {
        Seq::empty()
    } else {
        let wanted = |i: int| held(messages.skip(i + 1), messages[i].partition) < count;
        let rest = messages.drop_first();
        let inner = |i: int| held(rest.skip(i + 1), rest[i].partition) < count;
        let later = last_messages_stay(rest, count);
        let moved = later.map_values(|i: int| i + 1);
        let stays = held(rest, messages[0].partition) < count;
        assert(messages.skip(1) =~= rest);
        assert forall|i: int| 0 <= i < rest.len() implies #[trigger] inner(i) == wanted(i + 1) by {
            assert(rest.skip(i + 1) =~= messages.skip(i + 2));
        }
        let at = if stays {
            seq![0int] + moved
        } else {
            moved
        };
        assert forall|k: int| 0 <= k < at.len() implies 0 <= #[trigger] at[k] < messages.len()
            && wanted(at[k]) by {
            let m = if stays {
                k - 1
            } else {
                k
            };
            if m >= 0 {
                assert(at[k] == later[m] + 1);
                assert(inner(later[m]));
            }
        }
        assert forall|j: int, k: int| 0 <= j < k < at.len() implies #[trigger] at[j]
            < #[trigger] at[k] by {
            let b = if stays {
                k - 1
            } else {
                k
            };
            let a = if stays {
                j - 1
            } else {
                j
            };
            assert(at[k] == later[b] + 1);
            if a >= 0 {
                assert(at[j] == later[a] + 1);
                assert(later[a] < later[b]);
            }
        }
        assert forall|i: int| 0 <= i < messages.len() && #[trigger] wanted(i) implies at.contains(
            i,
        ) by {
            if i == 0 {
                assert(at[0] == 0);
            } else {
                assert(inner(i - 1));
                assert(later.contains(i - 1));
                let k = choose|k: int| 0 <= k < later.len() && later[k] == i - 1;
                if stays {
                    assert(at[k + 1] == i);
                } else {
                    assert(at[k] == i);
                }
            }
        }
        assert forall|k: int| 0 <= k < at.len() implies #[trigger] latest_of(messages, count)[k]
            == messages[at[k]] by {
            let m = if stays {
                k - 1
            } else {
                k
            };
            if m >= 0 {
                assert(latest_of(messages, count)[k] == latest_of(rest, count)[m]);
                assert(rest[later[m]] == messages[at[k]]);
            }
        }
        at
    }
}

/// Of the candidates for an answer, the `count` that are chosen are the newest, and of those of one
/// time the later ones. `from` are the places of all candidates from the oldest to the newest, and
/// the chosen ones are the last.
pub proof fn newest_are_chosen(candidates: Seq<Record>, count: nat) -> (from: Seq<int>)
    ensures
        from.len() == candidates.len(),
        from.no_duplicates(),
        forall|k: int| 0 <= k < from.len() ==> 0 <= #[trigger] from[k] < candidates.len(),
        forall|i: int, j: int|
            0 <= i < j < from.len() ==> candidates[#[trigger] from[i]].timestamp
                <= candidates[#[trigger] from[j]].timestamp && (candidates[from[i]].timestamp
                == candidates[from[j]].timestamp ==> from[i] < from[j]),
        newest(candidates, count).len() == (if candidates.len() < count {
            candidates.len()
        } else {
            count
        }),
        forall|k: int|
            0 <= k < newest(candidates, count).len() ==> #[trigger] newest(candidates, count)[k]
                == candidates[from[from.len() - newest(candidates, count).len() + k]],
{
    let ranked = candidates.map_values(|m: Record| ByTime { message: m });
    let from = sort::sorting_is_stable(ranked);
    assert forall|i: int, j: int| 0 <= i < j < from.len() implies candidates[#[trigger] from[
        i]].timestamp <= candidates[#[trigger] from[j]].timestamp && (candidates[from[i]].timestamp
        == candidates[from[j]].timestamp ==> from[i] < from[j]) by {
        assert(ranked[from[i]].at_most(&ranked[from[j]]));
        assert(ranked[from[i]].message == candidates[from[i]]);
        assert(ranked[from[j]].message == candidates[from[j]]);
    }
    from
}

/// The messages of an answer are the chosen ones, each once, by partition and then by offset.
pub proof fn answer_shows_the_chosen(collected: Seq<Record>, count: nat)
    ensures
        ({
            let answer = answer_of(collected, count);
            let chosen = newest(latest_of(sort::sorted(collected), count), count);
            &&& answer.to_multiset() == chosen.to_multiset()
            &&& forall|i: int, j: int|
                0 <= i < j < answer.len() ==> (#[trigger] answer[i]).partition < (
                #[trigger] answer[j]).partition || (answer[i].partition == answer[j].partition
                    && answer[i].offset <= answer[j].offset)
        }),
{
    let chosen = newest(latest_of(sort::sorted(collected), count), count);
    sort::sorting_orders(chosen);
    let answer = answer_of(collected, count);
    assert forall|i: int, j: int| 0 <= i < j < answer.len() implies (#[trigger] answer[i]).partition
        < (#[trigger] answer[j]).partition || (answer[i].partition == answer[j].partition
        && answer[i].offset <= answer[j].offset) by {
        assert(answer[i].at_most(&answer[j]));
    }
}

/// One hexadecimal digit.
pub open spec fn hex_digit(d: int) -> char {
    if d < 10 {
        (d + '0' as int) as char
    } else {
        (d - 10 + 'a' as int) as char
    }
}

/// The first `n` bytes in hexadecimal digits, two for each.
pub open spec fn hex_of(bytes: Seq<u8>, n: nat) -> Seq<char>
    decreases n,
{
    if n == 0 {
        Seq::empty()
    } else {
        hex_of(bytes, (n - 1) as nat).push(hex_digit(bytes[n - 1] as int / 16)).push(
            hex_digit(bytes[n - 1] as int % 16),
        )
    }
}

/// Bytes as they are shown: as the text that they spell, or in hexadecimal digits after `0x`.
pub open spec fn shown_bytes(bytes: Seq<u8>) -> Seq<char> {
    if vstd::utf8::valid_utf8(bytes) {
        vstd::utf8::decode_utf8(bytes)
    } else {
        "0x"@ + hex_of(bytes, bytes.len())
    }
}

/// Bytes that are no text are shown as `0x` and two lower-case hexadecimal digits for each, the
/// higher one first; bytes that are a text are shown as it.
pub proof fn bytes_are_shown_in_full(bytes: Seq<u8>, n: nat, i: int)
    requires
        0 <= i < n <= bytes.len(),
    ensures
        hex_of(bytes, n).len() == 2 * n,
        ({
            let (high, low) = (hex_of(bytes, n)[2 * i], hex_of(bytes, n)[2 * i + 1]);
            hex_value(high) * 16 + hex_value(low) == bytes[i]
        }),
        vstd::utf8::valid_utf8(bytes) ==> shown_bytes(bytes) == vstd::utf8::decode_utf8(bytes),
        !vstd::utf8::valid_utf8(bytes) ==> shown_bytes(bytes) == seq!['0', 'x'] + hex_of(
            bytes,
            bytes.len(),
        ),
    decreases n,
{
    reveal_strlit("0x");
    assert("0x"@ =~= seq!['0', 'x']);
    if i < n - 1 {
        bytes_are_shown_in_full(bytes, (n - 1) as nat, i);
    } else if n > 1 {
        bytes_are_shown_in_full(bytes, (n - 1) as nat, 0);
    }
}

/// What a lower-case hexadecimal digit stands for, or a number that no digit stands for.
pub open spec fn hex_value(c: char) -> int {
    if '0' <= c <= '9' {
        c as int - '0' as int
    } else if 'a' <= c <= 'f' {
        c as int - 'a' as int + 10
    } else {
        -1000
    }
}

fn hex_text(d: u8) -> (r: &'static str)
    requires
        d < 16,
    ensures
        r@ == seq![hex_digit(d as int)],
{
    proof {
        reveal_strlit("0");
        reveal_strlit("1");
        reveal_strlit("2");
        reveal_strlit("3");
        reveal_strlit("4");
        reveal_strlit("5");
        reveal_strlit("6");
        reveal_strlit("7");
        reveal_strlit("8");
        reveal_strlit("9");
        reveal_strlit("a");
        reveal_strlit("b");
        reveal_strlit("c");
        reveal_strlit("d");
        reveal_strlit("e");
        reveal_strlit("f");
    }
    let r = match d {
        0 => "0",
        1 => "1",
        2 => "2",
        3 => "3",
        4 => "4",
        5 => "5",
        6 => "6",
        7 => "7",
        8 => "8",
        9 => "9",
        10 => "a",
        11 => "b",
        12 => "c",
        13 => "d",
        14 => "e",
        _ => "f",
    };
    assert(r@ =~= seq![hex_digit(d as int)]);
    r
}

/// Shows bytes as the text that they spell in UTF-8, or in hexadecimal digits after `0x` where they
/// spell none.
pub fn bytes_to_text(bytes: &[u8]) -> (r: String)
    ensures
        r@ == shown_bytes(bytes@),
{
    match utf8_text(bytes) {
        Some(t) => t,
        None => {
            let mut r = "0x".to_owned();
            let mut i: usize = 0;
            assert(r@ =~= "0x"@ + hex_of(bytes@, 0));
            while i < bytes.len()
                invariant
                    i <= bytes@.len(),
                    r@ == "0x"@ + hex_of(bytes@, i as nat),
                decreases bytes@.len() - i,
            {
                r.append(hex_text(bytes[i] / 16));
                r.append(hex_text(bytes[i] % 16));
                i = i + 1;
                assert(r@ =~= "0x"@ + hex_of(bytes@, i as nat));
            }
            r
        },
    }
}

/// A message as it is shown.
pub struct ShownRecord {
    pub partition: i32,
    pub offset: i64,
    pub timestamp: i64,
    pub key: Option<String>,
    pub value: String,
    pub headers: Vec<(String, String)>,
}

/// Shows a message: its key, its value and the values of its headers as text.
pub fn show_record(m: &Record) -> (r: ShownRecord)
    ensures
        r.partition == m.partition,
        r.offset == m.offset,
        r.timestamp == m.timestamp,
        text::text_of(r.key) == (match m.key {
            Some(k) => Some(shown_bytes(k@)),
            None => None,
        }),
        r.value@ == shown_bytes(m.value@),
        r.headers@.len() == m.headers@.len(),
        forall|i: int|
            0 <= i < m.headers@.len() ==> (#[trigger] r.headers@[i]).0@ == m.headers@[i].0@
                && r.headers@[i].1@ == shown_bytes(m.headers@[i].1@),
{
    let mut headers: Vec<(String, String)> = Vec::new();
    let mut i: usize = 0;
    while i < m.headers.len()
        invariant
            i <= m.headers@.len(),
            headers@.len() == i,
            forall|k: int|
                0 <= k < i ==> (#[trigger] headers@[k]).0@ == m.headers@[k].0@ && headers@[k].1@
                    == shown_bytes(m.headers@[k].1@),
        decreases m.headers@.len() - i,
    {
        headers.push((m.headers[i].0.clone(), bytes_to_text(m.headers[i].1.as_slice())));
        i = i + 1;
    }
    ShownRecord {
        partition: m.partition,
        offset: m.offset,
        timestamp: m.timestamp,
        key: match &m.key {
            Some(k) => Some(bytes_to_text(k.as_slice())),
            None => None,
        },
        value: bytes_to_text(m.value.as_slice()),
        headers,
    }
}

/// The number of partitions and the replication factor of a new topic. Where the request does not
/// say, or says something negative, it is -1: the broker decides.
pub fn topic_settings(num_partitions: Option<i32>, replication_factor: Option<i16>) -> (r: (
    i32,
    i16,
))
    ensures
        r.0 == (match num_partitions {
            Some(n) if n >= -1 => n as int,
            _ => -1,
        }),
        r.1 == (match replication_factor {
            Some(n) if n >= -1 => n as int,
            _ => -1,
        }),
{
    let partitions: i32 = match num_partitions {
        Some(n) => if n >= -1 {
            n
        } else {
            -1
        },
        None => -1,
    };
    let replicas: i16 = match replication_factor {
        Some(n) => if n >= -1 {
            n
        } else {
            -1
        },
        None => -1,
    };
    (partitions, replicas)
}

/// Why a topic was not created.
#[derive(Debug)]
pub enum CreationError {
    /// There is one of that name.
    Conflict(String),
    /// The broker refused.
    Failed(String),
}

/// The outcome of creating a topic, as the broker reports it. `error_code` is the error code as
/// text.
pub fn creation_outcome(
    name: &str,
    already_exists: bool,
    success: bool,
    error_message: Option<String>,
    error_code: &str,
) -> (r: Result<(), CreationError>)
    ensures
        match r {
            Ok(_) => !already_exists && success,
            Err(CreationError::Conflict(e)) => already_exists && e@ == "topic '"@ + name@
                + "' already exists"@,
            Err(CreationError::Failed(e)) => !already_exists && !success && e@ == (
            match error_message {
                Some(m) => m@,
                None => "error code: "@ + error_code@,
            }),
        },
{
    if already_exists {
        return Err(
            CreationError::Conflict(
                "topic '".to_owned().concat(name).concat("' already exists"),
            ),
        );
    }
    if !success {
        return Err(
            CreationError::Failed(
                match error_message {
                    Some(m) => m,
                    None => "error code: ".to_owned().concat(error_code),
                },
            ),
        );
    }
    Ok(())
}

/// A downstream connection: who, to which node, and for how long, in nanoseconds.
#[derive(Debug)]
pub struct ConnectionRow {
    pub peer: String,
    pub node_id: i32,
    pub nanos: u64,
}

/// `a` comes no later than `b` in the alphabet of code points.
pub open spec fn no_later(a: Seq<char>, b: Seq<char>) -> bool
    decreases a.len(),
{
    if a.len() == 0 {
        true
    } else if b.len() == 0 {
        false
    } else if a[0] == b[0] {
        no_later(a.drop_first(), b.drop_first())
    } else {
        a[0] < b[0]
    }
}

/// A text comes no later than another where it is the start of it, or has the smaller character at
/// the first place where they differ.
pub proof fn texts_are_in_the_order_of_their_characters(a: Seq<char>, b: Seq<char>, i: int)
    requires
        0 <= i <= a.len(),
        i <= b.len(),
        a.take(i) == b.take(i),
    ensures
        i == a.len() ==> no_later(a, b),
        i < a.len() && i == b.len() ==> !no_later(a, b),
        i < a.len() && i < b.len() && a[i] < b[i] ==> no_later(a, b),
        i < a.len() && i < b.len() && a[i] > b[i] ==> !no_later(a, b),
    decreases i,
{
    if i > 0 {
        assert(a[0] == a.take(i)[0]);
        assert(b[0] == b.take(i)[0]);
        assert(a.drop_first().take(i - 1) =~= a.take(i).drop_first());
        assert(b.drop_first().take(i - 1) =~= b.take(i).drop_first());
        texts_are_in_the_order_of_their_characters(a.drop_first(), b.drop_first(), i - 1);
    }
}

/// Connections are shown by peer; those of one peer keep their order.
pub proof fn connections_are_shown_by_peer(rows: Seq<ConnectionRow>) -> (from: Seq<int>)
    ensures
        sort::sorted(rows).len() == rows.len(),
        from.len() == rows.len(),
        from.no_duplicates(),
        forall|k: int|
            0 <= k < rows.len() ==> 0 <= #[trigger] from[k] < rows.len() && sort::sorted(rows)[k]
                == rows[from[k]],
        forall|i: int, j: int|
            0 <= i < j < rows.len() ==> no_later(
                rows[#[trigger] from[i]].peer@,
                rows[#[trigger] from[j]].peer@,
            ) && (rows[from[i]].peer@ == rows[from[j]].peer@ ==> from[i] < from[j]),
{
    let from = sort::sorting_is_stable(rows);
    assert forall|i: int, j: int| 0 <= i < j < rows.len() implies no_later(
        rows[#[trigger] from[i]].peer@,
        rows[#[trigger] from[j]].peer@,
    ) && (rows[from[i]].peer@ == rows[from[j]].peer@ ==> from[i] < from[j]) by {
        assert(rows[from[i]].at_most(&rows[from[j]]));
        lemma_no_later_total(rows[from[i]].peer@, rows[from[i]].peer@);
    }
    from
}

proof fn lemma_no_later_total(a: Seq<char>, b: Seq<char>)
    ensures
        no_later(a, b) || no_later(b, a),
    decreases a.len(),
{
    if a.len() > 0 && b.len() > 0 && a[0] == b[0] {
        lemma_no_later_total(a.drop_first(), b.drop_first());
    }
}

proof fn lemma_no_later_transitive(a: Seq<char>, b: Seq<char>, c: Seq<char>)
    requires
        no_later(a, b),
        no_later(b, c),
    ensures
        no_later(a, c),
    decreases a.len(),
{
    if a.len() > 0 && b.len() > 0 && c.len() > 0 && a[0] == b[0] && b[0] == c[0] {
        lemma_no_later_transitive(a.drop_first(), b.drop_first(), c.drop_first());
    }
}

fn is_no_later(a: &str, b: &str) -> (r: bool)
    ensures
        r == no_later(a@, b@),
{
    let x = to_chars(a);
    let y = to_chars(b);
    let mut i: usize = 0;
    assert(a@.skip(0) =~= a@);
    assert(b@.skip(0) =~= b@);
    while i < x.len() && i < y.len() && x[i] == y[i]
        invariant
            i <= x@.len(),
            i <= y@.len(),
            x@ == a@,
            y@ == b@,
            no_later(a@, b@) == no_later(a@.skip(i as int), b@.skip(i as int)),
        decreases x@.len() - i,
    {
        assert(a@.skip(i as int).drop_first() =~= a@.skip(i + 1));
        assert(b@.skip(i as int).drop_first() =~= b@.skip(i + 1));
        i = i + 1;
    }
    if i == x.len() {
        true
    } else if i == y.len() {
        false
    } else {
        x[i] < y[i]
    }
}

impl Ranked for ConnectionRow {
    open spec fn at_most(&self, other: &Self) -> bool {
        no_later(self.peer@, other.peer@)
    }

    proof fn ranks_are_total(a: &Self, b: &Self) {
        lemma_no_later_total(a.peer@, b.peer@);
    }

    proof fn ranks_are_transitive(a: &Self, b: &Self, c: &Self) {
        lemma_no_later_transitive(a.peer@, b.peer@, c.peer@);
    }

    fn is_at_most(&self, other: &Self) -> (r: bool) {
        is_no_later(self.peer.as_str(), other.peer.as_str())
    }
}

/// The connections by peer.
pub fn connection_rows(rows: Vec<ConnectionRow>) -> (r: Vec<ConnectionRow>)
    ensures
        r@ == sort::sorted(rows@),
{
    stable_sort(rows)
}

} // verus!
