//! The entry records extracted from a configuration text, the modifier-key
//! gate, and the ranked fuzzy filter over a whole collection of entries.

use vstd::prelude::*;

use crate::chars::{has_substring, lower_all, contains_chars, lower_vec, str_chars, usize_view};
use crate::matcher;
use crate::matcher::{fuzzy_matches, match_positions, match_score};
use crate::parse;
use crate::spans::{MatchElement, split_spec, split_to_groups_by_indices, span_views};

verus! {

/// Extraction failures. Scanning itself cannot fail — lines that carry no
/// metadata are simply skipped — so parsing reports an error only for the
/// failures of the collaborators that supply the text.
#[derive(Debug, Clone)]
pub enum I3ConfigError {
    /// The configuration text could not be parsed.
    ConfigParsingError,
    /// The window manager could not be queried for its configuration.
    FailedI3Query,
    /// Querying the window manager is not supported on this platform.
    UnsupportedPlatform,
    /// The configuration could not be downloaded.
    FailedGetRequest,
}

impl I3ConfigError {
    /// A short human-readable message for this error.
    pub fn message(&self) -> (r: &'static str)
        ensures
            r@ == self.message_spec(),
    {
        match self {
            I3ConfigError::ConfigParsingError => "failed to parse config",
            I3ConfigError::FailedI3Query => "failed to query i3 for config",
            I3ConfigError::UnsupportedPlatform => "i3 not supported on this platform",
            I3ConfigError::FailedGetRequest => "Failed to download file",
        }
    }

    /// The message each error carries.
    pub open spec fn message_spec(&self) -> Seq<char> {
        match self {
            I3ConfigError::ConfigParsingError => "failed to parse config"@,
            I3ConfigError::FailedI3Query => "failed to query i3 for config"@,
            I3ConfigError::UnsupportedPlatform => "i3 not supported on this platform"@,
            I3ConfigError::FailedGetRequest => "Failed to download file"@,
        }
    }
}

/// The textual marker that a binding's `keys` field must contain (after
/// case folding) for the binding to be available while shift is held.
pub open spec fn shift_marker() -> Seq<char> {
    seq!['<', 's', 'h', 'i', 'f', 't', '>']
}

/// The marker for the control key.
pub open spec fn control_marker() -> Seq<char> {
    seq!['<', 'c', 't', 'r', 'l', '>']
}

/// The marker for the alt key.
pub open spec fn alt_marker() -> Seq<char> {
    seq!['<', 'a', 'l', 't', '>']
}

/// The marker for the meta (logo) key: the logo glyph between angle
/// brackets.
pub open spec fn meta_marker() -> Seq<char> {
    seq!['<', '\u{f17a}', '>']
}

fn shift_marker_chars() -> (r: Vec<char>)
    ensures
        r@ == shift_marker(),
{
    let mut r: Vec<char> = Vec::new();
    r.push('<');
    r.push('s');
    r.push('h');
    r.push('i');
    r.push('f');
    r.push('t');
    r.push('>');
    proof {
        assert(r@ =~= shift_marker());
    }
    r
}

fn control_marker_chars() -> (r: Vec<char>)
    ensures
        r@ == control_marker(),
{
    let mut r: Vec<char> = Vec::new();
    r.push('<');
    r.push('c');
    r.push('t');
    r.push('r');
    r.push('l');
    r.push('>');
    proof {
        assert(r@ =~= control_marker());
    }
    r
}

fn alt_marker_chars() -> (r: Vec<char>)
    ensures
        r@ == alt_marker(),
{
    let mut r: Vec<char> = Vec::new();
    r.push('<');
    r.push('a');
    r.push('l');
    r.push('t');
    r.push('>');
    proof {
        assert(r@ =~= alt_marker());
    }
    r
}

fn meta_marker_chars() -> (r: Vec<char>)
    ensures
        r@ == meta_marker(),
{
    let mut r: Vec<char> = Vec::new();
    r.push('<');
    r.push('\u{f17a}');
    r.push('>');
    proof {
        assert(r@ =~= meta_marker());
    }
    r
}

/// The modifier keys held while a query is made.
#[derive(Debug, Clone, PartialEq)]
pub struct Modifiers {
    shift: bool,
    control: bool,
    alt: bool,
    meta: bool,
}

/// The mathematical content of a `Modifiers` value: its four flags.
pub ghost struct ModifiersV {
    pub shift: bool,
    pub control: bool,
    pub alt: bool,
    pub meta: bool,
}

impl View for Modifiers {
    type V = ModifiersV;

    closed spec fn view(&self) -> ModifiersV {
        ModifiersV { shift: self.shift, control: self.control, alt: self.alt, meta: self.meta }
    }
}

/// The state with no modifier key held.
pub open spec fn no_modifiers() -> ModifiersV {
    ModifiersV { shift: false, control: false, alt: false, meta: false }
}

/// The text `Modifiers::description` produces: the markers of the held
/// keys, in a fixed order, or a placeholder when none is held.
pub open spec fn modifiers_description(m: ModifiersV) -> Seq<char> {
    let held = (if m.meta {
        meta_marker()
    } else {
        Seq::<char>::empty()
    }) + (if m.control {
        control_marker()
    } else {
        Seq::<char>::empty()
    }) + (if m.shift {
        shift_marker()
    } else {
        Seq::<char>::empty()
    }) + (if m.alt {
        alt_marker()
    } else {
        Seq::<char>::empty()
    });
    if held.len() == 0 {
        "No modifiers pressed..."@
    } else {
        held
    }
}

impl Modifiers {
    /// A modifier state from its four flags.
    pub fn new(shift: bool, control: bool, alt: bool, meta: bool) -> (r: Self)
        ensures
            r@ == (ModifiersV { shift, control, alt, meta }),
    {
        Modifiers { shift, control, alt, meta }
    }

    /// The markers of the held modifier keys, in a fixed order, or a
    /// placeholder when none is held.
    pub fn description(&self) -> (r: String)
        ensures
            r@ == modifiers_description(self@),
    {
        let mut description = String::new();
        if self.meta {
            description.append("<\u{f17a}>");
        }
        if self.control {
            description.append("<ctrl>");
        }
        if self.shift {
            description.append("<shift>");
        }
        if self.alt {
            description.append("<alt>");
        }
        proof {
            reveal_strlit("<\u{f17a}>");
            reveal_strlit("<ctrl>");
            reveal_strlit("<shift>");
            reveal_strlit("<alt>");
            assert("<\u{f17a}>"@ =~= meta_marker());
            assert("<ctrl>"@ =~= control_marker());
            assert("<shift>"@ =~= shift_marker());
            assert("<alt>"@ =~= alt_marker());
            assert(Seq::<char>::empty() + Seq::<char>::empty() =~= Seq::<char>::empty());
        }
        if description.as_str().unicode_len() == 0 {
            proof {
                let held = (if self@.meta {
                    meta_marker()
                } else {
                    Seq::<char>::empty()
                }) + (if self@.control {
                    control_marker()
                } else {
                    Seq::<char>::empty()
                }) + (if self@.shift {
                    shift_marker()
                } else {
                    Seq::<char>::empty()
                }) + (if self@.alt {
                    alt_marker()
                } else {
                    Seq::<char>::empty()
                });
                assert(held.len() == description@.len());
            }
            String::from_str("No modifiers pressed...")
        } else {
            description
        }
    }
}

impl Default for Modifiers {
    /// The state with no modifier key held.
    fn default() -> (r: Self)
        ensures
            r@ == no_modifiers(),
    {
        Modifiers { shift: false, control: false, alt: false, meta: false }
    }
}

/// One keybinding record: the group it belongs to, its description, the key
/// sequence that triggers it, and — after a filter pass — the character
/// positions of its group and description that the query matched.
#[derive(Debug, Clone, PartialEq)]
pub struct ConfigEntry {
    group: String,
    description: String,
    keys: String,
    description_indices: Option<Vec<usize>>,
    group_indices: Option<Vec<usize>>,
}

/// The mathematical content of a `ConfigEntry`: its three texts and its
/// transient match annotations.
pub ghost struct EntryV {
    pub group: Seq<char>,
    pub description: Seq<char>,
    pub keys: Seq<char>,
    pub description_indices: Option<Seq<int>>,
    pub group_indices: Option<Seq<int>>,
}

impl View for ConfigEntry {
    type V = EntryV;

    closed spec fn view(&self) -> EntryV {
        EntryV {
            group: self.group@,
            description: self.description@,
            keys: self.keys@,
            description_indices: match self.description_indices {
                None => None,
                Some(v) => Some(usize_view(v@)),
            },
            group_indices: match self.group_indices {
                None => None,
                Some(v) => Some(usize_view(v@)),
            },
        }
    }
}

/// The text an entry is fuzzy-matched against: its group, a single joining
/// space, then its description.
pub open spec fn full_text_spec(e: EntryV) -> Seq<char> {
    e.group + seq![' '] + e.description
}

/// Whether `keys` satisfies the modifier gate: for each held modifier key
/// the case-folded `keys` text must contain that key's marker.
pub open spec fn gate(keys: Seq<char>, m: ModifiersV) -> bool {
    &&& m.shift ==> has_substring(lower_all(keys), shift_marker())
    &&& m.control ==> has_substring(lower_all(keys), control_marker())
    &&& m.alt ==> has_substring(lower_all(keys), alt_marker())
    &&& m.meta ==> has_substring(lower_all(keys), meta_marker())
}

impl ConfigEntry {
    /// A fresh entry from its three texts, with no match recorded.
    pub fn new(group: String, description: String, keys: String) -> (r: Self)
        ensures
            r@ == (EntryV {
                group: group@,
                description: description@,
                keys: keys@,
                description_indices: None,
                group_indices: None,
            }),
    {
        ConfigEntry { group, description, keys, description_indices: None, group_indices: None }
    }

    /// The group this binding belongs to.
    pub fn group(&self) -> (r: &str)
        ensures
            r@ == self@.group,
    {
        self.group.as_str()
    }

    /// What this binding does.
    pub fn description(&self) -> (r: &str)
        ensures
            r@ == self@.description,
    {
        self.description.as_str()
    }

    /// The text the fuzzy matcher sees: group, one space, description.
    pub fn full_text(&self) -> (r: String)
        ensures
            r@ == full_text_spec(self@),
    {
        let mut r = self.group.clone();
        r.append(" ");
        proof {
            reveal_strlit(" ");
            assert(" "@ =~= seq![' ']);
        }
        r.append(self.description.as_str());
        r
    }

    /// The key sequence that triggers this binding.
    pub fn keys(&self) -> (r: &str)
        ensures
            r@ == self@.keys,
    {
        self.keys.as_str()
    }

    /// Whether this binding is available under the held modifier keys: each
    /// held key's marker must occur in the case-folded `keys` text.
    pub fn matches_modifiers(&self, modifiers: &Modifiers) -> (r: bool)
        ensures
            r == gate(self@.keys, modifiers@),
    {
        let keys = str_chars(self.keys.as_str());
        let folded = lower_vec(&keys);
        if modifiers.shift && !contains_chars(&folded, &shift_marker_chars()) {
            return false;
        }
        if modifiers.control && !contains_chars(&folded, &control_marker_chars()) {
            return false;
        }
        if modifiers.alt && !contains_chars(&folded, &alt_marker_chars()) {
            return false;
        }
        if modifiers.meta && !contains_chars(&folded, &meta_marker_chars()) {
            return false;
        }
        true
    }

    /// Forget the match recorded by a previous filter pass.
    pub fn clear_matches(&mut self)
        ensures
            final(self)@ == (EntryV {
                description_indices: None,
                group_indices: None,
                ..old(self)@
            }),
    {
        self.group_indices = None;
        self.description_indices = None;
    }

    /// Record which characters of the group the query matched.
    pub fn set_group_indices(&mut self, indices: Vec<usize>)
        ensures
            final(self)@ == (EntryV {
                group_indices: Some(usize_view(indices@)),
                ..old(self)@
            }),
    {
        self.group_indices = Some(indices);
    }

    /// Record which characters of the description the query matched.
    pub fn set_description_indices(&mut self, indices: Vec<usize>)
        ensures
            final(self)@ == (EntryV {
                description_indices: Some(usize_view(indices@)),
                ..old(self)@
            }),
    {
        self.description_indices = Some(indices);
    }

    /// The description split into matched and unmatched spans.
    pub fn matched_description(&self) -> (r: Vec<MatchElement>)
        ensures
            span_views(r@) == split_spec(self@.description, self@.description_indices),
    {
        split_to_groups_by_indices(self.description.as_str(), self.description_indices.as_ref())
    }

    /// The group split into matched and unmatched spans.
    pub fn matched_group(&self) -> (r: Vec<MatchElement>)
        ensures
            span_views(r@) == split_spec(self@.group, self@.group_indices),
    {
        split_to_groups_by_indices(self.group.as_str(), self.group_indices.as_ref())
    }
}

/// The views of a sequence of entries.
pub open spec fn entry_views(s: Seq<ConfigEntry>) -> Seq<EntryV> {
    s.map_values(|e: ConfigEntry| e@)
}

/// The entries a configuration text yields: one per metadata line, in order
/// of appearance, with no match recorded.
pub open spec fn parsed_entries(text: Seq<char>) -> Seq<EntryV> {
    parse::config_entries(text).map_values(
        |t: (Seq<char>, Seq<char>, Seq<char>)| EntryV {
            group: t.0,
            description: t.1,
            keys: t.2,
            description_indices: None,
            group_indices: None,
        },
    )
}

/// The entries extracted from one configuration text, in their order of
/// appearance, together with the ranked fuzzy filter over them.
#[derive(Debug, Clone, PartialEq)]
pub struct ConfigMetadata {
    entries: Vec<ConfigEntry>,
}

impl View for ConfigMetadata {
    type V = Seq<EntryV>;

    closed spec fn view(&self) -> Seq<EntryV> {
        entry_views(self.entries@)
    }
}

impl ConfigMetadata {
    /// Extract the keybinding metadata of a configuration text: one entry
    /// per line that follows the tag grammar, in order of appearance, each
    /// field trimmed. Lines of any other shape are skipped, so extraction
    /// always succeeds; an empty text yields an empty collection.
    pub fn parse(text: &str) -> (r: Result<ConfigMetadata, I3ConfigError>)
        ensures
            r is Ok,
            r matches Ok(c) ==> c@ == parsed_entries(text@),
    {
        let triples = parse::extract_entries(text);
        let ghost tview = triples@.map_values(
            |t: (String, String, String)| (t.0@, t.1@, t.2@),
        );
        let mut entries: Vec<ConfigEntry> = Vec::new();
        let mut k: usize = 0;
        proof {
            assert(entry_views(entries@) =~= parsed_entries(text@).take(0));
        }
        while k < triples.len()
            invariant
                k <= triples@.len(),
                tview == triples@.map_values(|t: (String, String, String)| (t.0@, t.1@, t.2@)),
                tview == parse::config_entries(text@),
                entry_views(entries@) == parsed_entries(text@).take(k as int),
            decreases triples@.len() - k,
        {
            let t = &triples[k];
            let ghost prev = entries@;
            entries.push(ConfigEntry::new(t.0.clone(), t.1.clone(), t.2.clone()));
            proof {
                let all = parsed_entries(text@);
                assert(entry_views(prev).len() == prev.len());
                assert(prev.len() == k);
                assert(entries@.len() == k + 1);
                assert(all.len() == tview.len());
                assert(tview[k as int] == (triples@[k as int].0@, triples@[k as int].1@, triples@[
                    k as int
                ].2@));
                assert(all[k as int] == (EntryV {
                    group: t.0@,
                    description: t.1@,
                    keys: t.2@,
                    description_indices: None,
                    group_indices: None,
                }));
                assert(entries@[k as int]@ == all[k as int]);
                assert forall|j: int| 0 <= j < k + 1 implies entry_views(entries@)[j] == all.take(
                    k + 1,
                )[j] by {
                    assert(entry_views(entries@)[j] == entries@[j]@);
                    if j < k {
                        assert(entries@[j] == prev[j]);
                        assert(entry_views(prev)[j] == prev[j]@);
                        assert(all.take(k as int)[j] == all[j]);
                    }
                }
                assert(entry_views(entries@) =~= all.take(k + 1));
            }
            k += 1;
        }
        proof {
            assert(parsed_entries(text@).take(triples@.len() as int) =~= parsed_entries(text@));
        }
        Ok(ConfigMetadata { entries })
    }

    /// The entries in their order of appearance in the source text.
    pub fn entries(&self) -> (r: &Vec<ConfigEntry>)
        ensures
            entry_views(r@) == self@,
    {
        &self.entries
    }
}

/// The part of the matched positions that falls inside the group: positions
/// strictly below the group's length, kept in order.
pub open spec fn group_part(m: Seq<int>, glen: int) -> Seq<int>
    decreases m.len(),
{
    if m.len() == 0 {
        Seq::empty()
    } else {
        let rest = group_part(m.drop_last(), glen);
        if m.last() < glen {
            rest.push(m.last())
        } else {
            rest
        }
    }
}

/// The part of the matched positions that falls inside the description:
/// positions strictly beyond the group's length — the joining space itself
/// is never kept — shifted to be description-local.
pub open spec fn description_part(m: Seq<int>, glen: int) -> Seq<int>
    decreases m.len(),
{
    if m.len() == 0 {
        Seq::empty()
    } else {
        let rest = description_part(m.drop_last(), glen);
        if m.last() > glen {
            rest.push(m.last() - glen - 1)
        } else {
            rest
        }
    }
}

/// Whether an entry passes a filter pass with query `q` under held
/// modifiers `m`: the query fuzzy-matches its combined text and its keys
/// satisfy the modifier gate.
pub open spec fn passes(e: EntryV, q: Seq<char>, m: ModifiersV) -> bool {
    fuzzy_matches(full_text_spec(e), q) && gate(e.keys, m)
}

/// The indices below `i` of the entries that pass, in storage order.
pub open spec fn passing_upto(entries: Seq<EntryV>, q: Seq<char>, m: ModifiersV, i: int) -> Seq<
    int,
>
    decreases i,
{
    if i <= 0 {
        Seq::empty()
    } else if passes(entries[i - 1], q, m) {
        passing_upto(entries, q, m, i - 1).push(i - 1)
    } else {
        passing_upto(entries, q, m, i - 1)
    }
}

/// The indices of the entries a filter pass keeps, in storage order.
pub open spec fn passing_indices(entries: Seq<EntryV>, q: Seq<char>, m: ModifiersV) -> Seq<int> {
    passing_upto(entries, q, m, entries.len() as int)
}

/// An entry as a filter pass with query `q` leaves it when it passes: the
/// matched positions, split at the group's length, recorded on both fields.
pub open spec fn annotated(e: EntryV, q: Seq<char>) -> EntryV {
    let m = match_positions(full_text_spec(e), q);
    let glen = e.group.len() as int;
    EntryV {
        group_indices: Some(group_part(m, glen)),
        description_indices: Some(description_part(m, glen)),
        ..e
    }
}

/// An entry as a filter pass leaves it when it does not pass: any earlier
/// match cleared.
pub open spec fn cleared(e: EntryV) -> EntryV {
    EntryV { group_indices: None, description_indices: None, ..e }
}

/// What a filter pass with query `q` and modifiers `m` leaves of an entry.
pub open spec fn filtered_entry(e: EntryV, q: Seq<char>, m: ModifiersV) -> EntryV {
    if passes(e, q, m) {
        annotated(e, q)
    } else {
        cleared(e)
    }
}

/// The score an entry attains against query `q`.
pub open spec fn entry_score(e: EntryV, q: Seq<char>) -> int {
    match_score(full_text_spec(e), q)
}

/// Split the matched positions at the group's length: positions below it
/// are group-local, positions beyond it are shifted to description-local
/// ones, and the position of the joining space itself is dropped.
fn split_indices(m: &Vec<usize>, glen: usize) -> (r: (Vec<usize>, Vec<usize>))
    ensures
        usize_view(r.0@) == group_part(usize_view(m@), glen as int),
        usize_view(r.1@) == description_part(usize_view(m@), glen as int),
{
    let mut gi: Vec<usize> = Vec::new();
    let mut di: Vec<usize> = Vec::new();
    let mut k: usize = 0;
    proof {
        assert(usize_view(m@.take(0)) =~= Seq::<int>::empty());
        assert(usize_view(gi@) =~= Seq::<int>::empty());
        assert(usize_view(di@) =~= Seq::<int>::empty());
    }
    while k < m.len()
        invariant
            k <= m@.len(),
            usize_view(gi@) == group_part(usize_view(m@.take(k as int)), glen as int),
            usize_view(di@) == description_part(usize_view(m@.take(k as int)), glen as int),
        decreases m@.len() - k,
    {
        let v = m[k];
        let ghost gprev = gi@;
        let ghost dprev = di@;
        if v < glen {
            gi.push(v);
        } else if v > glen {
            di.push(v - glen - 1);
        }
        proof {
            let mpre = usize_view(m@.take(k as int));
            let mcur = usize_view(m@.take(k + 1));
            assert(mcur.drop_last() =~= mpre);
            assert(mcur.last() == v as int);
            if v < glen {
                assert(usize_view(gi@) =~= usize_view(gprev).push(v as int));
            } else if v > glen {
                assert(usize_view(di@) =~= usize_view(dprev).push(v - glen - 1));
            }
        }
        k += 1;
    }
    proof {
        assert(m@.take(m@.len() as int) =~= m@);
    }
    (gi, di)
}

/// Descending, stable-enough selection sort of `(index, score)` pairs by
/// score: the result holds the same pairs, ordered by descending score.
fn sort_pairs_by_score(pairs: Vec<(usize, usize)>) -> (r: Vec<(usize, usize)>)
    ensures
        r@.len() == pairs@.len(),
        r@.to_multiset() == pairs@.to_multiset(),
        forall|k1: int, k2: int| 0 <= k1 <= k2 < r@.len() ==> #[trigger] r@[k1].1 >= #[trigger] r@[
            k2
        ].1,
{
    broadcast use vstd::seq_lib::group_to_multiset_ensures;

    let mut work = pairs;
    let mut out: Vec<(usize, usize)> = Vec::new();
    proof {
        assert(out@.to_multiset().add(work@.to_multiset()) =~= pairs@.to_multiset());
    }
    while work.len() > 0
        invariant
            out@.len() + work@.len() == pairs@.len(),
            out@.to_multiset().add(work@.to_multiset()) == pairs@.to_multiset(),
            forall|k1: int, k2: int|
                0 <= k1 <= k2 < out@.len() ==> #[trigger] out@[k1].1 >= #[trigger] out@[k2].1,
            forall|k: int, j: int|
                0 <= k < out@.len() && 0 <= j < work@.len() ==> #[trigger] out@[k].1
                    >= #[trigger] work@[j].1,
        decreases work@.len(),
    {
        // pick the highest score still waiting (the earliest one on a tie)
        let mut best: usize = 0;
        let mut j: usize = 1;
        while j < work.len()
            invariant
                best < j <= work@.len() || (j <= work@.len() && best == 0),
                best < work@.len(),
                j <= work@.len(),
                forall|p: int| 0 <= p < j ==> #[trigger] work@[p].1 <= work@[best as int].1,
            decreases work@.len() - j,
        {
            if work[j].1 > work[best].1 {
                best = j;
            }
            j += 1;
        }
        let ghost wprev = work@;
        let ghost oprev = out@;
        let item = work.remove(best);
        out.push(item);
        proof {
            broadcast use vstd::seq_lib::group_to_multiset_ensures;

            assert(wprev.remove(best as int).to_multiset() =~= wprev.to_multiset().remove(item));
            assert(out@.to_multiset() =~= oprev.to_multiset().insert(item));
            assert(wprev.to_multiset().count(item) > 0);
            assert(out@.to_multiset().add(work@.to_multiset()) =~= oprev.to_multiset().add(
                wprev.to_multiset(),
            ));
            assert forall|k: int, jj: int|
                0 <= k < out@.len() && 0 <= jj < work@.len() implies #[trigger] out@[k].1
                >= #[trigger] work@[jj].1 by {
                if jj < best {
                    assert(work@[jj] == wprev[jj]);
                } else {
                    assert(work@[jj] == wprev[jj + 1]);
                }
                if k < oprev.len() {
                    assert(out@[k] == oprev[k]);
                } else {
                    assert(out@[k] == item);
                }
            }
        }
    }
    out
}

/// Two sequences with the same elements keep the same elements under a
/// common mapping.
proof fn lemma_map_values_multiset<A, B>(s1: Seq<A>, s2: Seq<A>, f: spec_fn(A) -> B)
    requires
        s1.to_multiset() == s2.to_multiset(),
    ensures
        s1.map_values(f).to_multiset() == s2.map_values(f).to_multiset(),
    decreases s1.len(),
{
    broadcast use vstd::seq_lib::group_to_multiset_ensures;

    if s1.len() == 0 {
        assert(s2.to_multiset().len() == 0);
        assert(s2.len() == 0);
        assert(s1.map_values(f) =~= s2.map_values(f));
    } else {
        let x = s1[0];
        assert(s1.to_multiset().count(x) > 0);
        assert(s2.to_multiset().count(x) > 0);
        assert(s2.contains(x));
        let j = choose|j: int| 0 <= j < s2.len() && s2[j] == x;
        assert(s1.remove(0).to_multiset() =~= s1.to_multiset().remove(x));
        assert(s2.remove(j).to_multiset() =~= s2.to_multiset().remove(x));
        lemma_map_values_multiset(s1.remove(0), s2.remove(j), f);
        assert(s1.remove(0).map_values(f) =~= s1.map_values(f).remove(0));
        assert(s2.remove(j).map_values(f) =~= s2.map_values(f).remove(j));
        assert(s1.map_values(f)[0] == f(x));
        assert(s2.map_values(f)[j] == f(x));
        assert(s1.map_values(f).remove(0).to_multiset() =~= s1.map_values(f).to_multiset().remove(
            f(x),
        ));
        assert(s2.map_values(f).remove(j).to_multiset() =~= s2.map_values(f).to_multiset().remove(
            f(x),
        ));
        assert(s1.map_values(f).to_multiset().count(f(x)) > 0);
        assert(s2.map_values(f).to_multiset().count(f(x)) > 0);
        assert(s1.map_values(f).to_multiset() =~= s2.map_values(f).to_multiset()) by {
            let m1 = s1.map_values(f).to_multiset();
            let m2 = s2.map_values(f).to_multiset();
            assert(m1.remove(f(x)) == m2.remove(f(x)));
            assert forall|b: B| true implies m1.count(b) == m2.count(b) by {
                if b == f(x) {
                    assert(m1.remove(f(x)).count(b) == m1.count(b) - 1);
                    assert(m2.remove(f(x)).count(b) == m2.count(b) - 1);
                } else {
                    assert(m1.remove(f(x)).count(b) == m1.count(b));
                    assert(m2.remove(f(x)).count(b) == m2.count(b));
                }
            }
        }
    }
}

/// The first components of a sequence of `(index, score)` pairs.
pub open spec fn pair_firsts(s: Seq<(usize, usize)>) -> Seq<int> {
    s.map_values(|p: (usize, usize)| p.0 as int)
}

/// The views of a sequence of borrowed entries.
pub open spec fn result_views<'a>(s: Seq<&'a ConfigEntry>) -> Seq<EntryV> {
    s.map_values(|e: &ConfigEntry| e@)
}

/// The entries of `entries` at the positions `idxs`, in that order.
pub open spec fn selected(entries: Seq<EntryV>, idxs: Seq<int>) -> Seq<EntryV> {
    idxs.map_values(|i: int| entries[i])
}

impl ConfigMetadata {
    /// One filter pass: every entry's stale annotations are cleared; every
    /// entry whose combined `group description` text the query
    /// fuzzy-matches, and whose keys carry the markers of all held modifier
    /// keys, gets fresh annotations and a place in the result; the result
    /// holds exactly those entries, ordered by descending match score. An
    /// empty result is the normal outcome of a query nothing matches.
    pub fn filter(&mut self, pattern: &str, modifiers: &Modifiers) -> (res: Vec<&ConfigEntry>)
        ensures
            final(self)@.len() == old(self)@.len(),
            forall|i: int|
                0 <= i < old(self)@.len() ==> final(self)@[i] == filtered_entry(
                    old(self)@[i],
                    pattern@,
                    modifiers@,
                ),
            res@.len() == passing_indices(old(self)@, pattern@, modifiers@).len(),
            result_views(res@).to_multiset() == selected(
                final(self)@,
                passing_indices(old(self)@, pattern@, modifiers@),
            ).to_multiset(),
            forall|k1: int, k2: int|
                0 <= k1 <= k2 < res@.len() ==> entry_score(#[trigger] res@[k1]@, pattern@)
                    >= entry_score(#[trigger] res@[k2]@, pattern@),
    {
        let ghost q = pattern@;
        let ghost mv = modifiers@;
        let ghost old_views = self@;
        let qv = str_chars(pattern);
        let n = self.entries.len();
        let mut pairs: Vec<(usize, usize)> = Vec::new();
        let mut i: usize = 0;
        proof {
            assert(pair_firsts(pairs@) =~= passing_upto(old_views, q, mv, 0));
        }
        while i < n
            invariant
                q == pattern@,
                mv == modifiers@,
                old_views == old(self)@,
                qv@ == q,
                i <= n,
                n == self.entries@.len(),
                n == old_views.len(),
                self@ == entry_views(self.entries@),
                forall|j: int| i <= j < n ==> self@[j] == old_views[j],
                forall|j: int| 0 <= j < i ==> self@[j] == filtered_entry(old_views[j], q, mv),
                pair_firsts(pairs@) == passing_upto(old_views, q, mv, i as int),
                forall|k: int|
                    0 <= k < pairs@.len() ==> (#[trigger] pairs@[k]).0 < n && pairs@[k].1
                        == entry_score(old_views[pairs@[k].0 as int], q) && passes(
                        old_views[pairs@[k].0 as int],
                        q,
                        mv,
                    ),
            decreases n - i,
        {
            let ghost e = self@[i as int];
            proof {
                assert(self.entries@[i as int]@ == self@[i as int]);
            }
            let ft = self.entries[i].full_text();
            let target = str_chars(ft.as_str());
            let fz = matcher::fuzzy_indices(&target, &qv);
            let gate_ok = self.entries[i].matches_modifiers(modifiers);
            let g = self.entries[i].group().to_owned();
            let d = self.entries[i].description().to_owned();
            let ky = self.entries[i].keys().to_owned();
            let mut ne = ConfigEntry::new(g, d, ky);
            let ghost did_pass = passes(e, q, mv);
            let ghost pairs_prev = pairs@;
            match fz {
                Some((score, mpos)) => {
                    if gate_ok {
                        let glen = self.entries[i].group().unicode_len();
                        let (gidx, didx) = split_indices(&mpos, glen);
                        ne.set_group_indices(gidx);
                        ne.set_description_indices(didx);
                        pairs.push((i, score));
                        proof {
                            assert(did_pass);
                            assert(ne@ == annotated(e, q));
                        }
                    } else {
                        proof {
                            assert(!did_pass);
                            assert(ne@ == cleared(e));
                        }
                    }
                },
                None => {
                    proof {
                        assert(!did_pass);
                        assert(ne@ == cleared(e));
                    }
                },
            }
            let ghost entries_prev = self.entries@;
            self.entries.set(i, ne);
            proof {
                assert forall|j: int| 0 <= j < n && j != i implies self@[j] == entry_views(
                    entries_prev,
                )[j] by {
                    assert(self.entries@[j] == entries_prev[j]);
                }
                assert(self@[i as int] == ne@);
                assert(self@.len() == n);
                // the set of passing indices grows exactly when this entry passed
                if did_pass {
                    assert(pair_firsts(pairs@) =~= pair_firsts(pairs_prev).push(i as int));
                } else {
                    assert(pairs@ == pairs_prev);
                }
                assert(passing_upto(old_views, q, mv, i + 1) == (if passes(old_views[i as int], q, mv) {
                    passing_upto(old_views, q, mv, i as int).push(i as int)
                } else {
                    passing_upto(old_views, q, mv, i as int)
                }));
                assert(did_pass == passes(old_views[i as int], q, mv));
                assert(self@[i as int] == filtered_entry(old_views[i as int], q, mv));
                assert forall|j: int| 0 <= j < i + 1 implies self@[j] == filtered_entry(
                    old_views[j],
                    q,
                    mv,
                ) by {
                    if j < i {
                        assert(self@[j] == entry_views(entries_prev)[j]);
                        assert(entry_views(entries_prev)[j] == filtered_entry(old_views[j], q, mv));
                    }
                }
            }
            i += 1;
        }
        let ghost fviews = self@;
        proof {
            assert(passing_upto(old_views, q, mv, n as int) == passing_indices(old_views, q, mv));
        }
        let sorted = sort_pairs_by_score(pairs);
        proof {
            broadcast use vstd::seq_lib::group_to_multiset_ensures;

            assert forall|k: int| 0 <= k < sorted@.len() implies (#[trigger] sorted@[k]).0 < n
                && sorted@[k].1 == entry_score(old_views[sorted@[k].0 as int], q) && passes(
                old_views[sorted@[k].0 as int],
                q,
                mv,
            ) by {
                assert(sorted@.contains(sorted@[k]));
                assert(sorted@.to_multiset().count(sorted@[k]) > 0);
                assert(pairs@.to_multiset().count(sorted@[k]) > 0);
                assert(pairs@.contains(sorted@[k]));
                let kk = choose|kk: int| 0 <= kk < pairs@.len() && pairs@[kk] == sorted@[k];
                assert(pairs@[kk].0 < n);
            }
        }
        let mut res: Vec<&ConfigEntry> = Vec::new();
        let mut k: usize = 0;
        while k < sorted.len()
            invariant
                self@ == fviews,
                self@ == entry_views(self.entries@),
                n == self.entries@.len(),
                n == fviews.len(),
                k <= sorted@.len(),
                res@.len() == k,
                forall|kk: int| 0 <= kk < sorted@.len() ==> (#[trigger] sorted@[kk]).0 < n,
                forall|j: int|
                    0 <= j < k ==> (#[trigger] res@[j])@ == fviews[sorted@[j].0 as int],
            decreases sorted@.len() - k,
        {
            let idx = sorted[k].0;
            res.push(&self.entries[idx]);
            proof {
                assert(self.entries@[idx as int]@ == fviews[idx as int]);
            }
            k += 1;
        }
        proof {
            broadcast use vstd::seq_lib::group_to_multiset_ensures;

            let f = |p: (usize, usize)| fviews[p.0 as int];
            assert(result_views(res@) =~= sorted@.map_values(f)) by {
                assert forall|j: int| 0 <= j < res@.len() implies result_views(res@)[j]
                    == sorted@.map_values(f)[j] by {
                    assert(result_views(res@)[j] == res@[j]@);
                }
            }
            lemma_map_values_multiset(sorted@, pairs@, f);
            let pidx = passing_indices(old_views, q, mv);
            assert(pairs@.map_values(f) =~= selected(fviews, pidx)) by {
                assert(pair_firsts(pairs@) == pidx);
                assert forall|j: int| 0 <= j < pairs@.len() implies pairs@.map_values(f)[j]
                    == selected(fviews, pidx)[j] by {
                    assert(pair_firsts(pairs@)[j] == pairs@[j].0 as int);
                    assert(selected(fviews, pidx)[j] == fviews[pidx[j]]);
                }
            }
            assert(res@.len() == pidx.len()) by {
                assert(pair_firsts(pairs@).len() == pairs@.len());
            }
            // scores survive annotation, so the sort order is the score order
            assert forall|k1: int, k2: int|
                0 <= k1 <= k2 < res@.len() implies entry_score(#[trigger] res@[k1]@, q)
                >= entry_score(#[trigger] res@[k2]@, q) by {
                let i1 = sorted@[k1].0 as int;
                let i2 = sorted@[k2].0 as int;
                assert(res@[k1]@ == fviews[i1]);
                assert(res@[k2]@ == fviews[i2]);
                assert(fviews[i1] == filtered_entry(old_views[i1], q, mv));
                assert(fviews[i2] == filtered_entry(old_views[i2], q, mv));
                assert(full_text_spec(fviews[i1]) == full_text_spec(old_views[i1]));
                assert(full_text_spec(fviews[i2]) == full_text_spec(old_views[i2]));
                assert(sorted@[k1].1 >= sorted@[k2].1);
            }
        }
        res
    }
}

/// Every index a filter pass keeps is in range and belongs to an entry
/// that passes, and every passing index is kept, in increasing order.
pub proof fn lemma_passing_upto_props(entries: Seq<EntryV>, q: Seq<char>, m: ModifiersV, i: int)
    ensures
        forall|k: int|
            0 <= k < passing_upto(entries, q, m, i).len() ==> 0 <= #[trigger] passing_upto(
                entries,
                q,
                m,
                i,
            )[k] < i && passes(entries[passing_upto(entries, q, m, i)[k]], q, m),
        forall|j: int|
            0 <= j < i && passes(entries[j], q, m) ==> #[trigger] passing_upto(
                entries,
                q,
                m,
                i,
            ).contains(j),
    decreases i,
{
    if i <= 0 {
    } else {
        lemma_passing_upto_props(entries, q, m, i - 1);
        let prev = passing_upto(entries, q, m, i - 1);
        let cur = passing_upto(entries, q, m, i);
        assert forall|j: int| 0 <= j < i && passes(entries[j], q, m) implies cur.contains(j) by {
            if j < i - 1 {
                assert(passing_upto(entries, q, m, i - 1).contains(j));
                let k = choose|k: int| 0 <= k < prev.len() && prev[k] == j;
                if passes(entries[i - 1], q, m) {
                    assert(cur == prev.push(i - 1));
                    assert(cur[k] == prev[k]);
                } else {
                    assert(cur == prev);
                }
                assert(cur[k] == j);
            } else {
                assert(cur == prev.push(i - 1));
                assert(cur[cur.len() - 1] == j);
            }
        }
    }
}

/// Empty query: a filter pass with no query text and no held modifier keeps
/// every entry — the passing indices are exactly `0, 1, ..., len - 1`.
pub proof fn lemma_empty_query_keeps_all(entries: Seq<EntryV>, q: Seq<char>, m: ModifiersV)
    requires
        q.len() == 0,
        m == no_modifiers(),
    ensures
        passing_indices(entries, q, m).len() == entries.len(),
        forall|k: int|
            0 <= k < entries.len() ==> #[trigger] passing_indices(entries, q, m)[k] == k,
{
    assert forall|j: int| 0 <= j < entries.len() implies passes(#[trigger] entries[j], q, m) by {
        assert(matcher::leftmost_embedding(full_text_spec(entries[j]), q, 0) is Some);
    }
    lemma_passing_full_prefix(entries, q, m, entries.len() as int);
}

/// When every entry below `i` passes, the kept indices below `i` are all of
/// `0, 1, ..., i - 1`.
proof fn lemma_passing_full_prefix(entries: Seq<EntryV>, q: Seq<char>, m: ModifiersV, i: int)
    requires
        forall|j: int| 0 <= j < i ==> passes(#[trigger] entries[j], q, m),
    ensures
        passing_upto(entries, q, m, i).len() == (if i <= 0 {
            0
        } else {
            i
        }),
        forall|k: int| 0 <= k < i ==> #[trigger] passing_upto(entries, q, m, i)[k] == k,
    decreases i,
{
    if i <= 0 {
    } else {
        lemma_passing_full_prefix(entries, q, m, i - 1);
    }
}

/// No match: when the query is not a case-insensitive subsequence of any
/// entry's combined text, a filter pass keeps nothing.
pub proof fn lemma_no_match_keeps_none(entries: Seq<EntryV>, q: Seq<char>, m: ModifiersV)
    requires
        forall|j: int|
            0 <= j < entries.len() ==> !exists|emb: Seq<int>|
                matcher::is_embedding(full_text_spec(#[trigger] entries[j]), q, 0, emb),
    ensures
        passing_indices(entries, q, m).len() == 0,
{
    assert forall|j: int| 0 <= j < entries.len() implies !passes(#[trigger] entries[j], q, m) by {
        matcher::lemma_match_iff_embedding(full_text_spec(entries[j]), q);
    }
    lemma_passing_none_prefix(entries, q, m, entries.len() as int);
}

/// When no entry below `i` passes, nothing below `i` is kept.
proof fn lemma_passing_none_prefix(entries: Seq<EntryV>, q: Seq<char>, m: ModifiersV, i: int)
    requires
        forall|j: int| 0 <= j < i ==> !passes(#[trigger] entries[j], q, m),
    ensures
        passing_upto(entries, q, m, i).len() == 0,
    decreases i,
{
    if i <= 0 {
    } else {
        lemma_passing_none_prefix(entries, q, m, i - 1);
    }
}

/// Modifier gating is independent of the fuzzy score: an entry whose keys
/// lack the marker of some held modifier is kept by no filter pass, however
/// well its text matches the query.
pub proof fn lemma_gate_excludes(entries: Seq<EntryV>, q: Seq<char>, m: ModifiersV, i: int)
    requires
        0 <= i < entries.len(),
        !gate(entries[i].keys, m),
    ensures
        !passing_indices(entries, q, m).contains(i),
{
    lemma_passing_upto_props(entries, q, m, entries.len() as int);
    let pidx = passing_indices(entries, q, m);
    if pidx.contains(i) {
        let k = choose|k: int| 0 <= k < pidx.len() && pidx[k] == i;
        assert(passes(entries[pidx[k]], q, m));
    }
}

/// An entry whose `keys` text is empty can never satisfy a gate with any
/// modifier key held: the markers are all non-empty.
pub proof fn lemma_empty_keys_fails_active_gate(keys: Seq<char>, m: ModifiersV)
    requires
        keys.len() == 0,
        m.shift || m.control || m.alt || m.meta,
    ensures
        !gate(keys, m),
{
    assert(lower_all(keys).len() == 0);
    assert(!has_substring(lower_all(keys), shift_marker()));
    assert(!has_substring(lower_all(keys), control_marker()));
    assert(!has_substring(lower_all(keys), alt_marker()));
    assert(!has_substring(lower_all(keys), meta_marker()));
}

} // verus!
