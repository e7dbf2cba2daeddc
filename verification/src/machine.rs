//! A row of indicator lights, held as the bits of a word, and the buttons that
//! toggle them.

use crate::parse::{
    collect_lists, lights_of, lists_from, numbers_of, parse_list, parse_row, skip_space_bytes, skip_spaces, views,
    word_end, word_end_bytes,
};
use vstd::prelude::*;
use vstd::string::StringSliceAdditionalSpecFns;

verus! {

/// A machine: the light pattern to reach, the groups of lights that each button
/// toggles, and the joltage wanted of each counter.
#[derive(Debug)]
pub struct Machine {
    pub goal: u32,
    pub button_group: Vec<Vec<usize>>,
    pub joltages: Vec<usize>,
}

/// The lights after each of `buttons` toggled its light once, in order.
pub open spec fn pressed(lights: u32, buttons: Seq<usize>) -> u32
    decreases buttons.len(),
{
    if buttons.len() == 0 {
        lights
    } else {
        pressed(lights, buttons.drop_last()) ^ (1u32 << (buttons.last() as u32))
    }
}

/// The subsets of a range of indices that `Itertools::powerset` has yet to hand out.
#[verifier::external_type_specification]
#[verifier::external_body]
#[verifier::reject_recursive_types(I)]
pub struct ExPowerset<I: Iterator>(itertools::Powerset<I>);

/// The subsets that are still to come, in the order in which they will come.
pub uninterp spec fn remaining(subsets: itertools::Powerset<std::ops::Range<usize>>) -> Seq<Seq<usize>>;

/// `s` lists some of the indices below `n`, each once, in ascending order.
pub open spec fn is_index_subset(s: Seq<usize>, n: nat) -> bool {
    &&& forall|i: int| 0 <= i < s.len() ==> s[i] < n
    &&& forall|i: int, j: int| 0 <= i < j < s.len() ==> s[i] < s[j]
}

/// `members` lists the subsets of the indices below `n`, smaller subsets first.
pub open spec fn is_powerset(members: Seq<Seq<usize>>, n: nat) -> bool {
    &&& forall|i: int| 0 <= i < members.len() ==> is_index_subset(#[trigger] members[i], n)
    &&& forall|i: int, j: int|
        0 <= i < j < members.len() ==> (#[trigger] members[i]).len() <= (#[trigger] members[j]).len()
    &&& forall|s: Seq<usize>| #[trigger] is_index_subset(s, n) ==> members.contains(s)
}

/// Starts `Itertools::powerset` of itertools on the range `0..n`. It will hand out
/// the combinations of 0 indices, then of 1, and so on up to `n`, each as an
/// ascending list, and each combination of indices below `n` is among them.
#[verifier::external_body]
fn index_subsets(n: usize) -> (subsets: itertools::Powerset<std::ops::Range<usize>>)
    ensures
        is_powerset(remaining(subsets), n as nat),
{
    itertools::Itertools::powerset(0..n)
}

/// `Iterator::next` of the powerset of itertools: hands out the next subset and
/// leaves the rest, or nothing when none is left.
#[verifier::external_body]
fn next_subset(subsets: &mut itertools::Powerset<std::ops::Range<usize>>) -> (subset: Option<Vec<usize>>)
    ensures
        match subset {
            Some(s) => remaining(*old(subsets)).len() > 0 && s@ == remaining(*old(subsets))[0] && remaining(
                *final(subsets),
            ) == remaining(*old(subsets)).drop_first(),
            None => remaining(*old(subsets)).len() == 0 && remaining(*final(subsets)).len() == 0,
        },
{
    subsets.next()
}

/// The lights, all off at first, after the chosen buttons were pressed in order.
pub open spec fn toggled(groups: Seq<Seq<usize>>, chosen: Seq<usize>) -> u32
    decreases chosen.len(),
{
    if chosen.len() == 0 {
        0
    } else {
        pressed(toggled(groups, chosen.drop_last()), groups[chosen.last() as int])
    }
}

/// Some `k` different buttons, each pressed once, turn the lights into `goal`.
pub open spec fn reaches(groups: Seq<Seq<usize>>, goal: u32, k: nat) -> bool {
    exists|s: Seq<usize>| #[trigger] is_index_subset(s, groups.len()) && s.len() == k && toggled(groups, s) == goal
}

/// `k` is the least number of different buttons that turn the lights into `goal`.
pub open spec fn is_least(groups: Seq<Seq<usize>>, goal: u32, k: nat) -> bool {
    reaches(groups, goal, k) && forall|m: nat| m < k ==> !reaches(groups, goal, m)
}

/// The least number of different buttons that turn the lights into `goal`; the
/// number of all buttons where no choice of buttons does.
pub open spec fn least_presses(groups: Seq<Seq<usize>>, goal: u32) -> nat {
    if exists|k: nat| is_least(groups, goal, k) {
        choose|k: nat| is_least(groups, goal, k)
    } else {
        groups.len()
    }
}

/// The sum of the least numbers of presses of the first `k` machines.
pub open spec fn total_presses(machines: Seq<Machine>, k: nat) -> nat
    decreases k,
{
    if k == 0 {
        0
    } else {
        total_presses(machines, (k - 1) as nat) + least_presses(machines[k - 1].groups(), machines[k - 1].goal)
    }
}

/// An ascending list of indices below `n` has at most `n` entries.
proof fn lemma_subset_len(s: Seq<usize>, n: nat)
    requires
        is_index_subset(s, n),
    ensures
        s.len() <= n,
        forall|i: int| 0 <= i < s.len() ==> s[i] >= i,
    decreases s.len(),
{
    if s.len() > 0 {
        let t = s.drop_last();
        lemma_subset_len(t, n);
        let last = s.len() - 1;
        if last > 0 {
            assert(t[last - 1] >= last - 1);
            assert(s[last - 1] < s[last]);
        }
        assert forall|i: int| 0 <= i < s.len() implies s[i] >= i by {
            if i < last {
                assert(t[i] >= i);
            }
        }
        assert(s[last] < n);
    }
}

/// What a line writes of a machine: the light pattern of its first word, the
/// lists of its last word as joltages, and those of the words between as button
/// groups. Nothing where the line has fewer than two words or a word after the
/// first is no list of numbers.
pub open spec fn machine_of(s: Seq<u8>) -> Option<(u32, Seq<Seq<usize>>, Seq<usize>)> {
    let start = skip_spaces(s, 0);
    let end = word_end(s, start);
    if start >= s.len() {
        None
    } else {
        match lists_from(s, end) {
            Some(lists) => if lists.len() == 0 {
                None
            } else {
                Some((lights_of(s.subrange(start, end)), lists.drop_last(), lists.last()))
            },
            None => None,
        }
    }
}

impl Machine {
    /// Reads a machine from a line of words with ASCII white space between them:
    /// the light pattern, the button groups, the joltages.
    pub fn from(input: &str) -> (r: Option<Machine>)
        ensures
            match machine_of(input.spec_bytes()) {
                Some((goal, groups, joltages)) => r matches Some(m) && m.goal == goal && m.groups() == groups
                    && m.joltages@ == joltages,
                None => r is None,
            },
    {
        let bytes = input.as_bytes();
        let start: usize = skip_space_bytes(bytes, 0);
        if start >= bytes.len() {
            return None;
        }
        let end: usize = word_end_bytes(bytes, start);
        let goal: u32 = parse_row(vstd::slice::slice_subrange(bytes, start, end));
        let mut lists: Vec<Vec<usize>> = Vec::new();
        if !collect_lists(bytes, end, &mut lists) {
            return None;
        }
        proof {
            assert(views(lists@) =~= lists_from(bytes@, end as int).unwrap());
        }
        let ghost all = lists@;
        match lists.pop() {
            None => None,
            Some(joltages) => {
                let m = Machine { goal, button_group: lists, joltages };
                proof {
                    assert(m.groups() =~= views(all).drop_last());
                    assert(views(all).last() == joltages@);
                }
                Some(m)
            },
        }
    }

    /// Reads a comma-separated list of numbers with round or curly brackets
    /// around it; nothing where a field is no number.
    pub fn parse_numbers(input: &str) -> (r: Option<Vec<usize>>)
        ensures
            match numbers_of(input.spec_bytes()) {
                Some(found) => r matches Some(v) && v@ == found,
                None => r is None,
            },
    {
        parse_list(input.as_bytes())
    }

    /// Reads the light pattern to reach: a row of `.` and `#` with square
    /// brackets around it, the first light as bit 0.
    pub fn parse_lights(input: &str) -> (goal: u32)
        ensures
            goal == lights_of(input.spec_bytes()),
    {
        parse_row(input.as_bytes())
    }

    /// The button groups as sequences.
    pub open spec fn groups(&self) -> Seq<Seq<usize>> {
        Seq::new(self.button_group@.len(), |i: int| self.button_group@[i]@)
    }

    /// Every button names one of the 32 lights.
    pub open spec fn well_formed(&self) -> bool {
        forall|g: int, k: int|
            0 <= g < self.button_group@.len() && 0 <= k < self.button_group@[g]@.len()
                ==> #[trigger] self.button_group@[g]@[k] < 32
    }

    /// The lights, all off at first, after the chosen buttons were pressed in order.
    pub fn press_all(&self, chosen: &Vec<usize>) -> (lights: u32)
        requires
            self.well_formed(),
            forall|i: int| 0 <= i < chosen@.len() ==> chosen@[i] < self.button_group@.len(),
        ensures
            lights == toggled(self.groups(), chosen@),
    {
        let mut lights: u32 = 0;
        let mut i: usize = 0;
        while i < chosen.len()
            invariant
                i <= chosen@.len(),
                self.well_formed(),
                forall|m: int| 0 <= m < chosen@.len() ==> chosen@[m] < self.button_group@.len(),
                lights == toggled(self.groups(), chosen@.subrange(0, i as int)),
            decreases chosen@.len() - i,
        {
            proof {
                assert(chosen@.subrange(0, i + 1).drop_last() =~= chosen@.subrange(0, i as int));
            }
            let buttons = &self.button_group[chosen[i]];
            Machine::press(&mut lights, buttons.as_slice());
            i += 1;
        }
        proof {
            assert(chosen@.subrange(0, i as int) =~= chosen@);
        }
        lights
    }

    /// The least number of different buttons that turn the lights from all off
    /// into the goal; the number of all buttons where no choice of buttons does.
    pub fn fewest_presses(&self) -> (presses: usize)
        requires
            self.well_formed(),
        ensures
            presses == least_presses(self.groups(), self.goal),
    {
        let n: usize = self.button_group.len();
        let ghost groups = self.groups();
        let mut subsets = index_subsets(n);
        let ghost all = remaining(subsets);
        let ghost mut idx: int = 0;
        let mut presses: usize = 0;
        loop
            invariant
                n == self.button_group@.len(),
                groups == self.groups(),
                self.well_formed(),
                is_powerset(all, n as nat),
                0 <= idx <= all.len(),
                remaining(subsets) == all.subrange(idx, all.len() as int),
                forall|j: int| 0 <= j < idx ==> toggled(groups, #[trigger] all[j]) != self.goal,
                idx > 0 ==> presses == all[idx - 1].len(),
                idx == 0 ==> presses == 0,
            ensures
                idx == all.len(),
            decreases all.len() - idx,
        {
            let next = next_subset(&mut subsets);
            match next {
                None => {
                    break ;
                },
                Some(chosen) => {
                    proof {
                        assert(all.subrange(idx, all.len() as int).drop_first() =~= all.subrange(
                            idx + 1,
                            all.len() as int,
                        ));
                        assert(chosen@ == all[idx]);
                        assert(is_index_subset(all[idx], n as nat));
                    }
                    presses = chosen.len();
                    let lights: u32 = self.press_all(&chosen);
                    if lights == self.goal {
                        proof {
                            let k = presses as nat;
                            assert(groups.len() == n);
                            assert(is_index_subset(chosen@, groups.len()) && chosen@.len() == k && toggled(
                                groups,
                                chosen@,
                            ) == self.goal);
                            assert(reaches(groups, self.goal, k));
                            assert forall|m: nat| m < k implies !reaches(groups, self.goal, m) by {
                                if reaches(groups, self.goal, m) {
                                    let s = choose|s: Seq<usize>| #[trigger]
                                        is_index_subset(s, groups.len()) && s.len() == m && toggled(groups, s)
                                            == self.goal;
                                    assert(all.contains(s));
                                    let j = choose|j: int| 0 <= j < all.len() && all[j] == s;
                                    if j < idx {
                                        assert(toggled(groups, all[j]) != self.goal);
                                    } else if j > idx {
                                        assert(all[idx].len() <= all[j].len());
                                    }
                                }
                            }
                            lemma_least_is(groups, self.goal, k);
                        }
                        return presses;
                    }
                    proof {
                        idx = idx + 1;
                    }
                },
            }
        }
        proof {
            assert forall|k: nat| !is_least(groups, self.goal, k) by {
                if reaches(groups, self.goal, k) {
                    let s = choose|s: Seq<usize>| #[trigger]
                        is_index_subset(s, groups.len()) && s.len() == k && toggled(groups, s) == self.goal;
                    assert(all.contains(s));
                    let j = choose|j: int| 0 <= j < all.len() && all[j] == s;
                    assert(toggled(groups, all[j]) != self.goal);
                }
            }
            let full = Seq::new(n as nat, |i: int| i as usize);
            assert(is_index_subset(full, n as nat));
            assert(all.contains(full));
            let j = choose|j: int| 0 <= j < all.len() && all[j] == full;
            assert(all[j].len() <= all[idx - 1].len());
            assert(is_index_subset(all[idx - 1], n as nat));
            lemma_subset_len(all[idx - 1], n as nat);
        }
        presses
    }

    /// Toggles the light of each button, in order. Light `k` is bit `k`.
    pub fn press(lights: &mut u32, buttons: &[usize])
        requires
            forall|k: int| 0 <= k < buttons@.len() ==> buttons@[k] < 32,
        ensures
            *final(lights) == pressed(*old(lights), buttons@),
    {
        let mut k: usize = 0;
        while k < buttons.len()
            invariant
                k <= buttons@.len(),
                forall|m: int| 0 <= m < buttons@.len() ==> buttons@[m] < 32,
                *lights == pressed(*old(lights), buttons@.subrange(0, k as int)),
            decreases buttons@.len() - k,
        {
            let button: u32 = buttons[k] as u32;
            proof {
                assert(buttons@.subrange(0, k + 1).drop_last() =~= buttons@.subrange(0, k as int));
            }
            *lights = *lights ^ (1u32 << button);
            k += 1;
        }
        proof {
            assert(buttons@.subrange(0, k as int) =~= buttons@);
        }
    }
}

/// `r` lists, in ascending order, the buttons whose group holds `counter`.
pub open spec fn is_buttons_of(groups: Seq<Vec<usize>>, counter: usize, r: Seq<usize>) -> bool {
    &&& forall|i: int, j: int| 0 <= i < j < r.len() ==> r[i] < r[j]
    &&& forall|i: int| 0 <= i < r.len() ==> r[i] < groups.len() && groups[r[i] as int]@.contains(counter)
    &&& forall|b: usize| b < groups.len() && groups[b as int]@.contains(counter) ==> r.contains(b)
}

/// Whether the list holds the number.
pub fn list_holds(list: &Vec<usize>, x: usize) -> (found: bool)
    ensures
        found == list@.contains(x),
{
    let mut k: usize = 0;
    while k < list.len()
        invariant
            k <= list@.len(),
            forall|m: int| 0 <= m < k ==> list@[m] != x,
        decreases list@.len() - k,
    {
        if list[k] == x {
            return true;
        }
        k += 1;
    }
    false
}

/// The buttons that raise the given counter: those whose group holds it, in
/// ascending order.
pub fn buttons_of_counter(groups: &Vec<Vec<usize>>, counter: usize) -> (r: Vec<usize>)
    ensures
        is_buttons_of(groups@, counter, r@),
{
    let mut r: Vec<usize> = Vec::new();
    let mut b: usize = 0;
    while b < groups.len()
        invariant
            b <= groups@.len(),
            forall|i: int, j: int| 0 <= i < j < r@.len() ==> r@[i] < r@[j],
            forall|i: int| 0 <= i < r@.len() ==> r@[i] < b && groups@[r@[i] as int]@.contains(counter),
            forall|c: usize| c < b && groups@[c as int]@.contains(counter) ==> r@.contains(c),
        decreases groups@.len() - b,
    {
        if list_holds(&groups[b], counter) {
            let ghost before = r@;
            r.push(b);
            proof {
                assert forall|c: usize| c < b + 1 && groups@[c as int]@.contains(counter) implies r@.contains(
                    c,
                ) by {
                    if c == b {
                        assert(r@[before.len() as int] == c);
                    } else {
                        assert(before.contains(c));
                        let k = choose|k: int| 0 <= k < before.len() && before[k] == c;
                        assert(r@[k] == c);
                    }
                }
            }
        } else {
            proof {
                assert forall|c: usize| c < b + 1 && groups@[c as int]@.contains(counter) implies r@.contains(
                    c,
                ) by {}
            }
        }
        b += 1;
    }
    r
}

/// The least number of presses is unique.
proof fn lemma_least_is(groups: Seq<Seq<usize>>, goal: u32, k: nat)
    requires
        is_least(groups, goal, k),
    ensures
        least_presses(groups, goal) == k,
{
    let c = choose|c: nat| is_least(groups, goal, c);
    assert(is_least(groups, goal, c));
    if c < k {
        assert(!reaches(groups, goal, c));
    } else if k < c {
        assert(!reaches(groups, goal, k));
    }
}

/// The sum, over the machines, of the least number of presses of each; nothing
/// where the sum does not fit.
pub fn part1(machines: &[Machine]) -> (total: Option<usize>)
    requires
        forall|i: int| 0 <= i < machines@.len() ==> (#[trigger] machines@[i]).well_formed(),
    ensures
        match total {
            Some(t) => t == total_presses(machines@, machines@.len()),
            None => total_presses(machines@, machines@.len()) > usize::MAX,
        },
{
    let mut sum: usize = 0;
    let mut i: usize = 0;
    while i < machines.len()
        invariant
            i <= machines@.len(),
            forall|m: int| 0 <= m < machines@.len() ==> (#[trigger] machines@[m]).well_formed(),
            sum == total_presses(machines@, i as nat),
        decreases machines@.len() - i,
    {
        let presses: usize = machines[i].fewest_presses();
        match sum.checked_add(presses) {
            Some(next) => {
                sum = next;
            },
            None => {
                proof {
                    lemma_total_grows(machines@, (i + 1) as nat, machines@.len());
                }
                return None;
            },
        }
        i += 1;
    }
    Some(sum)
}

/// The sum over more machines is not smaller.
proof fn lemma_total_grows(machines: Seq<Machine>, j: nat, k: nat)
    requires
        j <= k,
    ensures
        total_presses(machines, j) <= total_presses(machines, k),
    decreases k,
{
    if j < k {
        lemma_total_grows(machines, j, (k - 1) as nat);
    }
}

} // verus!
