//! The history store: a bounded, deduplicated, ordered log of clipboard
//! snapshots, newest first. Mutations work on the in-memory log; the binary
//! image that is written to disk comes from the sibling persistence module.

use vstd::prelude::*;
use vstd::string::StrSliceExecFns;
use vstd::string::StringExecFns;
use crate::text::{
    first_line,
    lemma_first_line_single,
    lemma_newline_index,
    newline_index,
    newline_pos,
    trim_spaces,
    trimmed,
};

verus! {

/// One recorded clipboard snapshot.
pub struct Entry {
    /// Seconds since the Unix epoch, set at creation, never mutated.
    pub timestamp: i64,
    /// The full captured text.
    pub content: String,
    /// Whether the classifier flagged the text as sensitive.
    pub is_password: bool,
}

/// The mathematical value of an [`Entry`].
pub ghost struct EntrySnap {
    pub timestamp: i64,
    pub content: Seq<char>,
    pub is_password: bool,
}

impl View for Entry {
    type V = EntrySnap;

    open spec fn view(&self) -> EntrySnap {
        EntrySnap {
            timestamp: self.timestamp,
            content: self.content@,
            is_password: self.is_password,
        }
    }
}

/// Relies on std::time::SystemTime::now for the wall-clock timestamp of a
/// fresh entry; nothing is assumed of the value it reports.
#[verifier::external_body]
fn now_unix_seconds() -> i64 {
    match std::time::SystemTime::now().duration_since(std::time::UNIX_EPOCH) {
        Ok(d) => d.as_secs() as i64,
        Err(_) => 0,
    }
}

/// What a preview shows: the fixed mask for sensitive entries, otherwise the
/// first line capped at 100 characters.
pub open spec fn spec_preview(e: EntrySnap, mask_passwords: bool) -> Seq<char> {
    if mask_passwords && e.is_password {
        "••••••••"@
    } else {
        let line = first_line(e.content);
        if line.len() <= 100 {
            line
        } else {
            line.take(100)
        }
    }
}

impl Entry {
    /// A fresh entry carries the given text and flag and the current time.
    pub fn new(content: String, is_password: bool) -> (e: Entry)
        ensures
            e@.content == content@,
            e@.is_password == is_password,
    {
        Entry { timestamp: now_unix_seconds(), content, is_password }
    }

    /// A masked-or-truncated single-line rendering of the content.
    pub fn preview(&self, mask_passwords: bool) -> (r: String)
        ensures
            r@ == spec_preview(self@, mask_passwords),
    {
        if mask_passwords && self.is_password {
            return String::from_str("••••••••");
        }
        let s = self.content.as_str();
        let n: usize = s.unicode_len();
        let k: usize = newline_pos(s);
        proof {
            lemma_newline_index(s@);
        }
        let line_end: usize = if k < n && k > 0 && s.get_char(k - 1) == '\r' {
            k - 1
        } else {
            k
        };
        let end: usize = if line_end > 100 {
            100
        } else {
            line_end
        };
        let r = s.substring_char(0, end);
        proof {
            assert(s@.take(line_end as int) == first_line(self.content@));
            if line_end > 100 {
                assert(s@.take(line_end as int).take(100) =~= s@.take(100));
            }
            assert(r@ =~= spec_preview(self@, mask_passwords));
        }
        String::from_str(r)
    }
}

/// Previews of sensitive entries are the fixed eight-character mask,
/// whatever the content.
pub proof fn lemma_preview_masks_sensitive(e: EntrySnap)
    requires
        e.is_password,
    ensures
        spec_preview(e, true) == "••••••••"@,
        spec_preview(e, true).len() == 8,
{
    reveal_strlit("••••••••");
}

/// A preview never spans more than one line and never exceeds 100
/// characters.
pub proof fn lemma_preview_single_line(e: EntrySnap, mask_passwords: bool)
    ensures
        spec_preview(e, mask_passwords).len() <= 100,
        forall|j: int|
            0 <= j < spec_preview(e, mask_passwords).len() ==> #[trigger] spec_preview(
                e,
                mask_passwords,
            )[j] != '\n',
{
    if mask_passwords && e.is_password {
        reveal_strlit("••••••••");
    } else {
        lemma_first_line_single(e.content);
    }
}

/// Removing the first entry that carries the given content, if any.
pub open spec fn remove_content(entries: Seq<EntrySnap>, content: Seq<char>) -> Seq<EntrySnap>
    decreases entries.len(),
{
    if entries.len() == 0 {
        entries
    } else if entries[0].content == content {
        entries.drop_first()
    } else {
        seq![entries[0]] + remove_content(entries.drop_first(), content)
    }
}

/// The sequence cut down to at most `max` entries, from the front.
pub open spec fn clip(entries: Seq<EntrySnap>, max: int) -> Seq<EntrySnap> {
    if entries.len() <= max {
        entries
    } else {
        entries.take(max)
    }
}

/// The effect of recording `content`: any old occurrence leaves, the fresh
/// entry takes index 0, and the tail is cut to the bound.
pub open spec fn spec_add(
    entries: Seq<EntrySnap>,
    content: Seq<char>,
    timestamp: i64,
    is_password: bool,
    max: int,
) -> Seq<EntrySnap> {
    clip(seq![EntrySnap { timestamp, content, is_password }] + remove_content(entries, content), max)
}

/// No two entries share their content.
pub open spec fn unique_contents(entries: Seq<EntrySnap>) -> bool {
    forall|i: int, j: int|
        0 <= i < j < entries.len() ==> entries[i].content != entries[j].content
}

pub proof fn lemma_remove_none(entries: Seq<EntrySnap>, content: Seq<char>)
    requires
        forall|j: int| 0 <= j < entries.len() ==> entries[j].content != content,
    ensures
        remove_content(entries, content) == entries,
    decreases entries.len(),
{
    if entries.len() > 0 {
        assert forall|j: int| 0 <= j < entries.drop_first().len() implies entries.drop_first()[j].content
            != content by {
            assert(entries.drop_first()[j] == entries[j + 1]);
        }
        lemma_remove_none(entries.drop_first(), content);
        assert(seq![entries[0]] + entries.drop_first() =~= entries);
    }
}

pub proof fn lemma_remove_first(entries: Seq<EntrySnap>, content: Seq<char>, i: int)
    requires
        0 <= i < entries.len(),
        entries[i].content == content,
        forall|j: int| 0 <= j < i ==> entries[j].content != content,
    ensures
        remove_content(entries, content) == entries.remove(i),
    decreases i,
{
    if i == 0 {
        assert(entries.remove(0) =~= entries.drop_first());
    } else {
        assert forall|j: int| 0 <= j < i - 1 implies entries.drop_first()[j].content != content by {
            assert(entries.drop_first()[j] == entries[j + 1]);
        }
        assert(entries.drop_first()[i - 1] == entries[i]);
        lemma_remove_first(entries.drop_first(), content, i - 1);
        assert(seq![entries[0]] + entries.drop_first().remove(i - 1) =~= entries.remove(i));
    }
}

/// The index of the first entry that carries the given content.
pub proof fn first_occurrence(entries: Seq<EntrySnap>, content: Seq<char>) -> (i: int)
    requires
        exists|k: int| 0 <= k < entries.len() && entries[k].content == content,
    ensures
        0 <= i < entries.len(),
        entries[i].content == content,
        forall|j: int| 0 <= j < i ==> entries[j].content != content,
    decreases entries.len(),
{
    if entries[0].content == content {
        0
    } else {
        let k = choose|k: int| 0 <= k < entries.len() && entries[k].content == content;
        assert(entries.drop_first()[k - 1] == entries[k]);
        let sub = first_occurrence(entries.drop_first(), content);
        assert(entries.drop_first()[sub] == entries[sub + 1]);
        assert forall|j: int| 0 <= j < sub + 1 implies entries[j].content != content by {
            if j > 0 {
                assert(entries.drop_first()[j - 1] == entries[j]);
            }
        }
        sub + 1
    }
}

/// The bounded, deduplicated, ordered log, newest first.
pub struct History {
    pub(crate) items: Vec<Entry>,
    pub(crate) max_items: usize,
}

impl View for History {
    type V = Seq<EntrySnap>;

    closed spec fn view(&self) -> Seq<EntrySnap> {
        self.items@.map_values(|e: Entry| e@)
    }
}

/// Within the crate, the model of a store is the mapped view of its vector.
pub(crate) proof fn reveal_history_model(h: &History)
    ensures
        h@ == h.items@.map_values(|e: Entry| e@),
        h.max_spec() == h.max_items,
{
}

impl History {
    /// The configured upper bound on the number of entries.
    pub closed spec fn max_spec(&self) -> usize {
        self.max_items
    }

    /// Read-only view of the current entries, newest first.
    pub fn items(&self) -> (r: &[Entry])
        ensures
            r@.len() == self@.len(),
            forall|i: int| 0 <= i < r@.len() ==> #[trigger] r@[i]@ == self@[i],
    {
        self.items.as_slice()
    }

    /// Records trimmed text: returns false and changes nothing when the text
    /// trims to nothing; otherwise moves or inserts the entry at the front,
    /// cuts the log to the bound, and returns true.
    pub fn add_text(&mut self, text: &str, is_password: bool) -> (r: bool)
        ensures
            r == (trim_spaces(text@).len() > 0),
            final(self).max_spec() == old(self).max_spec(),
            !r ==> final(self)@ == old(self)@,
            r ==> exists|ts: i64|
                final(self)@ == spec_add(
                    old(self)@,
                    trim_spaces(text@),
                    ts,
                    is_password,
                    old(self).max_spec() as int,
                ),
    {
        let t = trimmed(text);
        if t.unicode_len() == 0 {
            return false;
        }
        let ghost m0 = self@;
        let n: usize = self.items.len();
        let mut pos: usize = 0;
        let mut found: bool = false;
        while pos < n && !found
            invariant
                0 <= pos <= n,
                n == self.items.len(),
                self.items@ == old(self).items@,
                self.max_items == old(self).max_items,
                m0 == self@,
                t@ == trim_spaces(text@),
                forall|j: int| 0 <= j < pos ==> #[trigger] m0[j].content != t@,
                found ==> pos < n && m0[pos as int].content == t@,
            decreases n - pos + (if found { 0int } else { 1int }),
        {
            if crate::text::str_equal(self.items[pos].content.as_str(), t) {
                found = true;
            } else {
                pos = pos + 1;
            }
        }
        if found {
            self.items.remove(pos);
            proof {
                lemma_remove_first(m0, t@, pos as int);
                assert(self.items@.map_values(|e: Entry| e@) =~= m0.remove(pos as int));
            }
        } else {
            proof {
                lemma_remove_none(m0, t@);
            }
        }
        let ghost m1 = self@;
        assert(m1 == remove_content(m0, t@));
        let entry = Entry::new(String::from_str(t), is_password);
        let ghost snap = entry@;
        self.items.insert(0, entry);
        proof {
            assert(self.items@.map_values(|e: Entry| e@) =~= m1.insert(0, snap));
        }
        self.truncate_if_needed();
        proof {
            assert(m1.insert(0, snap) =~= seq![snap] + m1);
            assert(final(self)@ == spec_add(
                m0,
                trim_spaces(text@),
                snap.timestamp,
                is_password,
                old(self).max_spec() as int,
            ));
        }
        true
    }

    /// Empties the log.
    pub fn clear(&mut self)
        ensures
            final(self)@ == Seq::<EntrySnap>::empty(),
            final(self).max_spec() == old(self).max_spec(),
    {
        self.items.clear();
        proof {
            assert(self.items@.map_values(|e: Entry| e@) =~= Seq::<EntrySnap>::empty());
        }
    }

    /// Cuts the log to the configured bound.
    pub(crate) fn truncate_if_needed(&mut self)
        ensures
            final(self)@ == clip(old(self)@, old(self).max_spec() as int),
            final(self).max_spec() == old(self).max_spec(),
    {
        if self.items.len() > self.max_items {
            self.items.truncate(self.max_items);
            proof {
                assert(self.items@.map_values(|e: Entry| e@) =~= old(self)@.take(
                    old(self).max_items as int,
                ));
            }
        }
    }
}

/// Recording keeps the store's invariant: contents stay pairwise distinct
/// and the length stays within the bound.
pub proof fn lemma_add_keeps_invariant(
    entries: Seq<EntrySnap>,
    content: Seq<char>,
    timestamp: i64,
    is_password: bool,
    max: int,
)
    requires
        unique_contents(entries),
        max >= 0,
    ensures
        unique_contents(spec_add(entries, content, timestamp, is_password, max)),
        spec_add(entries, content, timestamp, is_password, max).len() <= max,
{
    let rc = remove_content(entries, content);
    if exists|k: int| 0 <= k < entries.len() && entries[k].content == content {
        let i = first_occurrence(entries, content);
        lemma_remove_first(entries, content, i);
        assert forall|j: int| 0 <= j < rc.len() implies #[trigger] rc[j].content != content by {
            if j < i {
                assert(rc[j] == entries[j]);
            } else {
                assert(rc[j] == entries[j + 1]);
            }
        }
        assert forall|a: int, b: int| 0 <= a < b < rc.len() implies rc[a].content != rc[b].content by {
            let ea: int = if a < i { a } else { a + 1 };
            let eb: int = if b < i { b } else { b + 1 };
            assert(rc[a] == entries[ea]);
            assert(rc[b] == entries[eb]);
        }
    } else {
        lemma_remove_none(entries, content);
    }
    let full = seq![EntrySnap { timestamp, content, is_password }] + rc;
    assert forall|a: int, b: int| 0 <= a < b < full.len() implies full[a].content != full[b].content by {
        if a > 0 {
            assert(full[a] == rc[a - 1]);
            assert(full[b] == rc[b - 1]);
        } else {
            assert(full[b] == rc[b - 1]);
        }
    }
    let r = spec_add(entries, content, timestamp, is_password, max);
    assert forall|a: int, b: int| 0 <= a < b < r.len() implies r[a].content != r[b].content by {
        assert(r[a] == full[a]);
        assert(r[b] == full[b]);
    }
}

/// Re-adding content that is already present keeps the length and moves the
/// occurrence to the front: the old copy leaves, the fresh entry leads.
pub proof fn lemma_readd_moves_to_front(
    entries: Seq<EntrySnap>,
    content: Seq<char>,
    timestamp: i64,
    is_password: bool,
    max: int,
)
    requires
        exists|k: int| 0 <= k < entries.len() && entries[k].content == content,
        entries.len() <= max,
    ensures
        spec_add(entries, content, timestamp, is_password, max).len() == entries.len(),
        spec_add(entries, content, timestamp, is_password, max)[0].content == content,
        exists|i: int|
            0 <= i < entries.len() && entries[i].content == content && spec_add(
                entries,
                content,
                timestamp,
                is_password,
                max,
            ) == seq![EntrySnap { timestamp, content, is_password }] + entries.remove(i),
{
    let i = first_occurrence(entries, content);
    lemma_remove_first(entries, content, i);
    let full = seq![EntrySnap { timestamp, content, is_password }] + entries.remove(i);
    assert(full.len() == entries.len());
    assert(spec_add(entries, content, timestamp, is_password, max) == full);
    assert(full[0].content == content);
}

/// At capacity, adding fresh content evicts exactly the oldest entry: the
/// rest shift back by one and the last entry leaves.
pub proof fn lemma_add_evicts_oldest(
    entries: Seq<EntrySnap>,
    content: Seq<char>,
    timestamp: i64,
    is_password: bool,
    max: int,
)
    requires
        forall|k: int| 0 <= k < entries.len() ==> entries[k].content != content,
        entries.len() == max,
        max >= 1,
    ensures
        spec_add(entries, content, timestamp, is_password, max).len() == max,
        spec_add(entries, content, timestamp, is_password, max) == seq![
            EntrySnap { timestamp, content, is_password },
        ] + entries.drop_last(),
{
    lemma_remove_none(entries, content);
    let full = seq![EntrySnap { timestamp, content, is_password }] + entries;
    assert(full.len() == max + 1);
    assert(full.take(max) =~= seq![EntrySnap { timestamp, content, is_password }]
        + entries.drop_last());
}

/// The effect of adding a whole sequence of texts in order.
pub open spec fn spec_add_seq(
    entries: Seq<EntrySnap>,
    texts: Seq<Seq<char>>,
    stamps: Seq<i64>,
    flags: Seq<bool>,
    max: int,
) -> Seq<EntrySnap>
    decreases texts.len(),
{
    if texts.len() == 0 {
        entries
    } else {
        spec_add_seq(
            spec_add(entries, texts[0], stamps[0], flags[0], max),
            texts.drop_first(),
            stamps.drop_first(),
            flags.drop_first(),
            max,
        )
    }
}

/// Adding N distinct non-empty texts, none of them present yet and N within
/// the bound, grows the log by exactly N, ordered most-recent-first, with
/// the previous entries unchanged behind them.
pub proof fn lemma_distinct_adds_in_order(
    entries: Seq<EntrySnap>,
    texts: Seq<Seq<char>>,
    stamps: Seq<i64>,
    flags: Seq<bool>,
    max: int,
)
    requires
        stamps.len() == texts.len(),
        flags.len() == texts.len(),
        forall|i: int, j: int| 0 <= i < j < texts.len() ==> texts[i] != texts[j],
        forall|i: int| 0 <= i < texts.len() ==> #[trigger] texts[i].len() > 0,
        forall|i: int, k: int|
            0 <= i < texts.len() && 0 <= k < entries.len() ==> entries[k].content != texts[i],
        entries.len() + texts.len() <= max,
    ensures
        spec_add_seq(entries, texts, stamps, flags, max).len() == entries.len() + texts.len(),
        forall|i: int|
            0 <= i < texts.len() ==> #[trigger] spec_add_seq(entries, texts, stamps, flags, max)[i]
                == (EntrySnap {
                timestamp: stamps[texts.len() - 1 - i],
                content: texts[texts.len() - 1 - i],
                is_password: flags[texts.len() - 1 - i],
            }),
        spec_add_seq(entries, texts, stamps, flags, max).skip(texts.len() as int) == entries,
    decreases texts.len(),
{
    let r = spec_add_seq(entries, texts, stamps, flags, max);
    if texts.len() == 0 {
        assert(r.skip(0) =~= entries);
    } else {
        let snap0 = EntrySnap { timestamp: stamps[0], content: texts[0], is_password: flags[0] };
        lemma_remove_none(entries, texts[0]);
        let grown = seq![snap0] + entries;
        assert(spec_add(entries, texts[0], stamps[0], flags[0], max) == grown);
        assert forall|i: int, k: int|
            0 <= i < texts.drop_first().len() && 0 <= k < grown.len() implies grown[k].content
            != texts.drop_first()[i] by {
            assert(texts.drop_first()[i] == texts[i + 1]);
            if k > 0 {
                assert(grown[k] == entries[k - 1]);
            }
        }
        lemma_distinct_adds_in_order(
            grown,
            texts.drop_first(),
            stamps.drop_first(),
            flags.drop_first(),
            max,
        );
        let rest = spec_add_seq(
            grown,
            texts.drop_first(),
            stamps.drop_first(),
            flags.drop_first(),
            max,
        );
        assert(r == rest);
        assert forall|i: int| 0 <= i < texts.len() implies #[trigger] r[i] == EntrySnap {
            timestamp: stamps[texts.len() - 1 - i],
            content: texts[texts.len() - 1 - i],
            is_password: flags[texts.len() - 1 - i],
        } by {
            if i < texts.len() - 1 {
                assert(rest[i] == EntrySnap {
                    timestamp: stamps.drop_first()[texts.len() - 2 - i],
                    content: texts.drop_first()[texts.len() - 2 - i],
                    is_password: flags.drop_first()[texts.len() - 2 - i],
                });
                assert(stamps.drop_first()[texts.len() - 2 - i] == stamps[texts.len() - 1 - i]);
                assert(texts.drop_first()[texts.len() - 2 - i] == texts[texts.len() - 1 - i]);
                assert(flags.drop_first()[texts.len() - 2 - i] == flags[texts.len() - 1 - i]);
            } else {
                assert(rest.skip(texts.len() - 1)[0] == rest[texts.len() - 1]);
                assert(grown[0] == snap0);
            }
        }
        assert(r.skip(texts.len() as int) =~= rest.skip(texts.len() - 1).skip(1));
        assert(rest.skip(texts.len() - 1).skip(1) =~= entries);
    }
}

} // verus!
