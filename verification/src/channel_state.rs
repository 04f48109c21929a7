//! Which acquisition channels are available and which one is shown.
use vstd::prelude::*;

verus! {

/// The channel picked when the previous choice is no longer offered, if it
/// is offered itself.
pub const PREFERRED_CHANNEL: usize = 30;

/// The selection kept or picked after the options change to `opts`: the
/// previous selection while it is still offered, otherwise the preferred
/// channel if offered, otherwise the first option, otherwise none.
pub open spec fn reselect(selection: Option<usize>, opts: Seq<usize>) -> Option<usize> {
    if selection is Some && opts.contains(selection.unwrap()) {
        selection
    } else if opts.contains(PREFERRED_CHANNEL) {
        Some(PREFERRED_CHANNEL)
    } else if opts.len() > 0 {
        Some(opts[0])
    } else {
        None
    }
}

/// The reselection keeps a channel on offer: it is empty exactly when
/// nothing is offered, and otherwise names one of the options.
pub proof fn lemma_reselect_offered(selection: Option<usize>, opts: Seq<usize>)
    ensures
        reselect(selection, opts) is None <==> opts.len() == 0,
        reselect(selection, opts) is Some ==> opts.contains(reselect(selection, opts).unwrap()),
{
    if opts.len() > 0 {
        assert(opts.contains(opts[0]));
    }
}

/// Whether `c` separates the unit from the rest of a channel name.
pub open spec fn is_unit_delimiter(c: char) -> bool {
    c == '(' || c == ')'
}

/// The position of the first unit delimiter of `s` at or after `start`, or
/// `s.len()` when there is none.
pub open spec fn next_delimiter(s: Seq<char>, start: int) -> int
    decreases s.len() - start,
{
    if start >= s.len() {
        s.len() as int
    } else if is_unit_delimiter(s[start]) {
        start
    } else {
        next_delimiter(s, start + 1)
    }
}

/// The unit of a channel name such as `Z (m)`: the second piece when the
/// name is split at every `(` and `)`, if there is a second piece.
pub open spec fn unit_of(name: Seq<char>) -> Option<Seq<char>> {
    let p = next_delimiter(name, 0);
    if p >= name.len() {
        None
    } else {
        Some(name.subrange(p + 1, next_delimiter(name, p + 1)))
    }
}

/// What the view does once the chosen channel changed: fetch the whole
/// frame of the new channel, or clear the image when there is none.
#[derive(Clone, Copy, PartialEq, Eq, Structural, Debug)]
pub enum ChannelFollowUp {
    RequestFrame,
    ClearImage,
    Nothing,
}

/// The text of an optional name.
pub open spec fn choice_view(o: Option<String>) -> Option<Seq<char>> {
    match o {
        Some(s) => Some(s@),
        None => None,
    }
}

/// Whether two optional names are the same.
fn same_choice(a: &Option<String>, b: &Option<String>) -> (r: bool)
    ensures
        r == (choice_view(*a) == choice_view(*b)),
{
    match (a, b) {
        (Some(x), Some(y)) => *x == *y,
        (None, None) => true,
        _ => false,
    }
}

/// The channel names, the indexes of the channels on offer, and the chosen
/// channel.
pub struct ChannelState {
    names: Vec<String>,
    opts: Vec<usize>,
    pub selection: Option<usize>,
}

impl ChannelState {
    /// The names of all signals, by index.
    pub closed spec fn names(&self) -> Seq<Seq<char>> {
        self.names@.map_values(|n: String| n@)
    }

    /// The chosen channel.
    pub closed spec fn selected(&self) -> Option<usize> {
        self.selection
    }

    /// The indexes of the channels on offer.
    pub closed spec fn opts(&self) -> Seq<usize> {
        self.opts@
    }

    /// Whether the selection names a known signal.
    pub open spec fn selection_named(&self) -> bool {
        self.selected() is Some ==> self.selected().unwrap() < self.names().len()
    }

    /// No names, no options, nothing selected.
    pub fn new() -> (s: Self)
        ensures
            s.names().len() == 0,
            s.opts().len() == 0,
            s.selected() is None,
    {
        ChannelState { names: Vec::new(), opts: Vec::new(), selection: None }
    }

    /// Replaces the channels on offer with `opts`, keeping the selection if
    /// it is still offered and otherwise picking one by `reselect`.
    pub fn modify_opts(&mut self, opts: Vec<usize>)
        ensures
            final(self).opts() == opts@,
            final(self).names() == old(self).names(),
            final(self).selected() == reselect(old(self).selected(), opts@),
    {
        self.opts = opts;
        let keep = match self.selection {
            Some(sel) => contains(&self.opts, sel),
            None => false,
        };
        if !keep {
            if contains(&self.opts, PREFERRED_CHANNEL) {
                self.selection = Some(PREFERRED_CHANNEL);
            } else if self.opts.len() > 0 {
                self.selection = Some(self.opts[0]);
            } else {
                self.selection = None;
            }
        }
    }

    /// Selects the channel `selection`, or none.
    pub fn set_selection(&mut self, selection: Option<usize>)
        ensures
            final(self).selected() == selection,
            final(self).names() == old(self).names(),
            final(self).opts() == old(self).opts(),
    {
        self.selection = selection;
    }

    /// The indexes of the channels on offer.
    pub fn options(&self) -> (r: &[usize])
        ensures
            r@ == self.opts(),
    {
        self.opts.as_slice()
    }

    /// Replaces the signal names.
    pub fn write_names(&mut self, names: Vec<String>)
        ensures
            final(self).names() == names@.map_values(|n: String| n@),
            final(self).opts() == old(self).opts(),
            final(self).selected() == old(self).selected(),
    {
        self.names = names;
    }

    /// The names of the channels on offer, in order.
    pub fn channel_opts_names(&self) -> (r: Vec<String>)
        requires
            forall|i: int| 0 <= i < self.opts().len() ==> self.opts()[i] < self.names().len(),
        ensures
            r@.len() == self.opts().len(),
            forall|i: int| 0 <= i < r@.len() ==> (#[trigger] r@[i])@ == self.names()[self.opts()[i] as int],
    {
        let mut r: Vec<String> = Vec::new();
        let n = self.opts.len();
        assert(self.names().len() == self.names@.len());
        assert forall|j: int| 0 <= j < n implies self.opts@[j] < self.names@.len() by {
            assert(self.opts()[j] < self.names().len());
        }
        let mut i: usize = 0;
        while i < n
            invariant
                n == self.opts@.len(),
                i <= n,
                forall|j: int| 0 <= j < n ==> self.opts@[j] < self.names@.len(),
                r@.len() == i,
                forall|j: int| 0 <= j < i ==> (#[trigger] r@[j])@ == self.names@[self.opts@[j] as int]@,
            decreases n - i,
        {
            let name = self.names[self.opts[i]].clone();
            r.push(name);
            i = i + 1;
        }
        r
    }

    /// The name of the selected channel.
    pub fn selected_as_string(&self) -> (r: Option<String>)
        requires
            self.selection_named(),
        ensures
            r is Some <==> self.selected() is Some,
            r is Some ==> r.unwrap()@ == self.names()[self.selected().unwrap() as int],
    {
        match self.selection {
            Some(sel) => Some(self.names[sel].clone()),
            None => None,
        }
    }

    /// Selects the first signal called `name`, which must exist.
    pub fn set_selection_by_name(&mut self, name: &str)
        requires
            old(self).names().contains(name@),
        ensures
            final(self).selected() is Some,
            final(self).names()[final(self).selected().unwrap() as int] == name@,
            forall|i: int| 0 <= i < final(self).selected().unwrap() ==> old(self).names()[i] != name@,
            final(self).names() == old(self).names(),
            final(self).opts() == old(self).opts(),
    {
        let target = String::from_str(name);
        let n = self.names.len();
        let mut i: usize = 0;
        while i < n
            invariant
                n == self.names@.len(),
                i <= n,
                target@ == name@,
                self.names@ == old(self).names@,
                self.opts@ == old(self).opts@,
                self.names().contains(name@),
                self.names().len() == n,
                forall|j: int| 0 <= j < i ==> self.names()[j] != name@,
            decreases n - i,
        {
            assert(self.names()[i as int] == self.names@[i as int]@);
            if self.names[i] == target {
                self.selection = Some(i);
                return;
            }
            i = i + 1;
        }
        proof {
            let j = choose|j: int| 0 <= j < self.names().len() && self.names()[j] == name@;
            assert(self.names()[j] != name@);
        }
    }

    /// The name of the chosen channel, when one is chosen.
    pub open spec fn chosen_name(&self) -> Option<Seq<char>> {
        match self.selected() {
            Some(i) => Some(self.names()[i as int]),
            None => None,
        }
    }

    /// Follows a change of the controller's choice: the name the view now
    /// shows, and what it does. When the view already shows that choice,
    /// nothing changes.
    pub fn follow_controller(&self, shown: Option<String>) -> (r: (Option<String>, ChannelFollowUp))
        requires
            self.selection_named(),
        ensures
            choice_view(shown) == self.chosen_name() ==> choice_view(r.0) == choice_view(shown) && r.1
                == ChannelFollowUp::Nothing,
            choice_view(shown) != self.chosen_name() ==> choice_view(r.0) == self.chosen_name() && r.1 == (
            if self.selected() is Some {
                ChannelFollowUp::RequestFrame
            } else {
                ChannelFollowUp::ClearImage
            }),
    {
        let now = self.selected_as_string();
        if same_choice(&shown, &now) {
            (shown, ChannelFollowUp::Nothing)
        } else if self.selection.is_some() {
            (now, ChannelFollowUp::RequestFrame)
        } else {
            (now, ChannelFollowUp::ClearImage)
        }
    }

    /// Makes the controller's choice the one the view shows, `shown`, by
    /// name; returns what the view does then. When they agree already,
    /// nothing changes.
    pub fn follow_view(&mut self, shown: &Option<String>) -> (r: ChannelFollowUp)
        requires
            old(self).selection_named(),
            shown is Some ==> old(self).names().contains(shown.unwrap()@),
        ensures
            final(self).names() == old(self).names(),
            final(self).opts() == old(self).opts(),
            final(self).selection_named(),
            choice_view(*shown) == old(self).chosen_name() ==> final(self).selected() == old(self).selected() && r
                == ChannelFollowUp::Nothing,
            choice_view(*shown) != old(self).chosen_name() ==> {
                &&& final(self).chosen_name() == choice_view(*shown)
                &&& r == if shown is Some {
                    ChannelFollowUp::RequestFrame
                } else {
                    ChannelFollowUp::ClearImage
                }
            },
    {
        let now = self.selected_as_string();
        if same_choice(&now, shown) {
            return ChannelFollowUp::Nothing;
        }
        match shown {
            Some(name) => {
                self.set_selection_by_name(name.as_str());
                ChannelFollowUp::RequestFrame
            },
            None => {
                self.selection = None;
                ChannelFollowUp::ClearImage
            },
        }
    }

    /// The unit of the selected channel, as in `unit_of`.
    pub fn unit(&self) -> (r: Option<String>)
        requires
            self.selection_named(),
        ensures
            self.selected() is None ==> r is None,
            self.selected() is Some ==> match unit_of(self.names()[self.selected().unwrap() as int]) {
                Some(u) => r is Some && r.unwrap()@ == u,
                None => r is None,
            },
    {
        match self.selected_as_string() {
            Some(sel) => unit_of_name(sel.as_str()),
            None => None,
        }
    }
}

impl Default for ChannelState {
    fn default() -> (s: Self)
        ensures
            s.names().len() == 0,
            s.opts().len() == 0,
            s.selected() is None,
    {
        ChannelState::new()
    }
}

/// Whether `v` holds `x`.
fn contains(v: &Vec<usize>, x: usize) -> (r: bool)
    ensures
        r == v@.contains(x),
{
    let n = v.len();
    let mut i: usize = 0;
    while i < n
        invariant
            n == v@.len(),
            i <= n,
            forall|j: int| 0 <= j < i ==> v@[j] != x,
        decreases n - i,
    {
        if v[i] == x {
            assert(v@[i as int] == x);
            return true;
        }
        i = i + 1;
    }
    false
}

/// The position of the first unit delimiter of `s` at or after `start`.
fn find_delimiter(s: &str, start: usize) -> (r: usize)
    requires
        start <= s@.len(),
    ensures
        r == next_delimiter(s@, start as int),
{
    let n = s.unicode_len();
    let mut i = start;
    while i < n
        invariant
            n == s@.len(),
            start <= i <= n,
            next_delimiter(s@, start as int) == next_delimiter(s@, i as int),
        decreases n - i,
    {
        let c = s.get_char(i);
        if c == '(' || c == ')' {
            return i;
        }
        i = i + 1;
    }
    i
}

/// The unit of a channel name, as in `unit_of`.
pub fn unit_of_name(name: &str) -> (r: Option<String>)
    ensures
        match unit_of(name@) {
            Some(u) => r is Some && r.unwrap()@ == u,
            None => r is None,
        },
{
    let n = name.unicode_len();
    let p = find_delimiter(name, 0);
    if p >= n {
        return None;
    }
    let q = find_delimiter(name, p + 1);
    proof {
        lemma_next_delimiter_bounds(name@, p as int + 1);
    }
    Some(String::from_str(name.substring_char(p + 1, q)))
}

proof fn lemma_next_delimiter_bounds(s: Seq<char>, start: int)
    requires
        0 <= start <= s.len(),
    ensures
        start <= next_delimiter(s, start) <= s.len(),
    decreases s.len() - start,
{
    if start < s.len() && !is_unit_delimiter(s[start]) {
        lemma_next_delimiter_bounds(s, start + 1);
    }
}

} // verus!
