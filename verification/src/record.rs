//! The record of burials: one line per buried file, holding the time, the
//! path the file came from and its path in the graveyard, separated by tabs.
use vstd::multiset::Multiset;
use vstd::prelude::*;

use crate::grave::reported;
use crate::path::{components, path_eq, path_starts_with};
use crate::text::{chars_of, string_of};

verus! {

/// The tab-separated fields of `p`, where `cur` is the text of the field
/// read so far, just before `p`.
pub open spec fn fields_from(p: Seq<char>, cur: Seq<char>) -> Seq<Seq<char>>
    decreases p.len(),
{
    if p.len() == 0 {
        seq![cur]
    } else if p[0] == '\t' {
        seq![cur] + fields_from(p.drop_first(), seq![])
    } else {
        fields_from(p.drop_first(), cur.push(p[0]))
    }
}

/// The tab-separated fields of the line `p`.
pub open spec fn fields(p: Seq<char>) -> Seq<Seq<char>> {
    fields_from(p, seq![])
}

/// Whether a line can be read as a record entry: it has at least three
/// fields.
pub open spec fn is_record_text(line: Seq<char>) -> bool {
    fields(line).len() >= 3
}

/// Whether `p` holds no tab.
pub open spec fn tab_free(p: Seq<char>) -> bool {
    forall|i: int| 0 <= i < p.len() ==> p[i] != '\t'
}

/// The line that records a burial.
pub open spec fn record_text(time: Seq<char>, orig: Seq<char>, dest: Seq<char>) -> Seq<char> {
    time + seq!['\t'] + orig + seq!['\t'] + dest
}

/// The graveyard path that a record line names.
pub open spec fn dest_of(line: Seq<char>) -> Seq<char> {
    fields(line)[2]
}

/// Whether one of `graves` is, as a path, the same as `dest`.
pub open spec fn names_any(dest: Seq<char>, graves: Seq<Seq<char>>) -> bool {
    exists|k: int| 0 <= k < graves.len() && components(#[trigger] graves[k]) == components(dest)
}

/// Whether the record line `line` is that of one of `graves`.
pub open spec fn line_of_any(graves: Seq<Seq<char>>) -> spec_fn(Seq<char>) -> bool {
    |line: Seq<char>| names_any(dest_of(line), graves)
}

/// Whether the record line `line` is not that of any of `graves`.
pub open spec fn line_of_none(graves: Seq<Seq<char>>) -> spec_fn(Seq<char>) -> bool {
    |line: Seq<char>| !names_any(dest_of(line), graves)
}

/// Whether the grave of the record line `line` lies under `gravepath`.
pub open spec fn grave_under(gravepath: Seq<char>) -> spec_fn(Seq<char>) -> bool {
    |line: Seq<char>| components(gravepath).is_prefix_of(components(dest_of(line)))
}

/// All lines of `lines` can be read as record entries.
pub open spec fn all_record_lines(lines: Seq<Seq<char>>) -> bool {
    forall|i: int| 0 <= i < lines.len() ==> is_record_text(#[trigger] lines[i])
}

/// One entry of the record.
pub struct RecordItem {
    pub time: String,
    pub orig: String,
    pub dest: String,
}

/// A field that holds no tab runs to the end.
proof fn lemma_fields_tab_free(p: Seq<char>, cur: Seq<char>)
    requires
        tab_free(p),
    ensures
        fields_from(p, cur) == seq![cur + p],
    decreases p.len(),
{
    if p.len() == 0 {
        assert(cur + p =~= cur);
    } else {
        assert(p[0] != '\t');
        assert(tab_free(p.drop_first()));
        lemma_fields_tab_free(p.drop_first(), cur.push(p[0]));
        assert(cur.push(p[0]) + p.drop_first() =~= cur + p);
    }
}

/// A tab ends the field that holds no tab before it.
proof fn lemma_fields_at_tab(a: Seq<char>, b: Seq<char>, cur: Seq<char>)
    requires
        tab_free(a),
    ensures
        fields_from(a + seq!['\t'] + b, cur) == seq![cur + a] + fields_from(b, seq![]),
    decreases a.len(),
{
    let p = a + seq!['\t'] + b;
    if a.len() == 0 {
        assert(p[0] == '\t');
        assert(p.drop_first() =~= b);
        assert(cur + a =~= cur);
    } else {
        assert(p[0] == a[0]);
        assert(a[0] != '\t');
        assert(p.drop_first() =~= a.drop_first() + seq!['\t'] + b);
        assert(tab_free(a.drop_first()));
        lemma_fields_at_tab(a.drop_first(), b, cur.push(a[0]));
        assert(cur.push(a[0]) + a.drop_first() =~= cur + a);
    }
}

/// Every text has at least one field.
proof fn lemma_fields_nonempty(p: Seq<char>, cur: Seq<char>)
    ensures
        fields_from(p, cur).len() >= 1,
    decreases p.len(),
{
    if p.len() > 0 && p[0] != '\t' {
        lemma_fields_nonempty(p.drop_first(), cur.push(p[0]));
    }
}

/// Reading back a record line gives the three texts it was made of, when
/// none holds a tab.
pub proof fn lemma_record_roundtrip(time: Seq<char>, orig: Seq<char>, dest: Seq<char>)
    requires
        tab_free(time),
        tab_free(orig),
        tab_free(dest),
    ensures
        fields(record_text(time, orig, dest)) == seq![time, orig, dest],
        is_record_text(record_text(time, orig, dest)),
        dest_of(record_text(time, orig, dest)) == dest,
{
    let rest = orig + seq!['\t'] + dest;
    assert(record_text(time, orig, dest) =~= time + seq!['\t'] + rest);
    lemma_fields_at_tab(time, rest, seq![]);
    lemma_fields_at_tab(orig, dest, seq![]);
    lemma_fields_tab_free(dest, seq![]);
    assert(Seq::<char>::empty() + time =~= time);
    assert(Seq::<char>::empty() + orig =~= orig);
    assert(Seq::<char>::empty() + dest =~= dest);
    assert(fields(record_text(time, orig, dest)) =~= seq![time, orig, dest]);
}

/// The index of the first tab in `v` at or after `from`, or the length of
/// `v` when there is none.
fn find_tab(v: &Vec<char>, from: usize) -> (k: usize)
    requires
        from <= v@.len(),
    ensures
        from <= k <= v@.len(),
        k < v@.len() ==> v@[k as int] == '\t',
        tab_free(v@.subrange(from as int, k as int)),
{
    let mut k = from;
    while k < v.len() && v[k] != '\t'
        invariant
            from <= k <= v@.len(),
            tab_free(v@.subrange(from as int, k as int)),
        decreases v@.len() - k,
    {
        assert(v@.subrange(from as int, k + 1) =~= v@.subrange(from as int, k as int).push(v@[k as int]));
        k = k + 1;
    }
    k
}

/// The fields of `v[from..]` start with the text up to the first tab, and
/// when there is a tab, continue with the fields after it.
proof fn lemma_split_at(v: Seq<char>, from: int, k: int)
    requires
        0 <= from <= k <= v.len(),
        k < v.len() ==> v[k] == '\t',
        tab_free(v.subrange(from, k)),
    ensures
        k == v.len() ==> fields(v.subrange(from, v.len() as int)) == seq![v.subrange(from, k)],
        k < v.len() ==> fields(v.subrange(from, v.len() as int)) == seq![v.subrange(from, k)]
            + fields(v.subrange(k + 1, v.len() as int)),
{
    let a = v.subrange(from, k);
    if k == v.len() {
        lemma_fields_tab_free(a, seq![]);
        assert(Seq::<char>::empty() + a =~= a);
        assert(v.subrange(from, v.len() as int) =~= a);
    } else {
        let b = v.subrange(k + 1, v.len() as int);
        assert(v.subrange(from, v.len() as int) =~= a + seq!['\t'] + b);
        lemma_fields_at_tab(a, b, seq![]);
        assert(Seq::<char>::empty() + a =~= a);
    }
}

/// Whether `line` can be read as a record entry (it has at least three
/// tab-separated fields); [`record_entry`] expects one that can.
pub fn is_record_line(line: &str) -> (ok: bool)
    ensures
        ok == is_record_text(line@),
{
    let v = chars_of(line);
    let n = v.len();
    let k1 = find_tab(&v, 0);
    proof {
        lemma_split_at(v@, 0, k1 as int);
        assert(v@.subrange(0, n as int) =~= v@);
    }
    if k1 == n {
        return false;
    }
    let k2 = find_tab(&v, k1 + 1);
    proof {
        lemma_split_at(v@, k1 + 1, k2 as int);
        if k2 < n {
            lemma_fields_nonempty(v@.subrange(k2 + 1, n as int), seq![]);
        }
    }
    k2 < n
}

/// Whether every one of `lines` can be read as a record entry.
pub fn all_record_lines_in(lines: &Vec<String>) -> (ok: bool)
    ensures
        ok == all_record_lines(lines.deep_view()),
{
    let mut i: usize = 0;
    while i < lines.len()
        invariant
            0 <= i <= lines@.len(),
            forall|j: int| 0 <= j < i ==> is_record_text(#[trigger] lines.deep_view()[j]),
        decreases lines@.len() - i,
    {
        assert(lines.deep_view()[i as int] == lines@[i as int]@);
        if !is_record_line(lines[i].as_str()) {
            return false;
        }
        i = i + 1;
    }
    true
}

/// Parses a line of the record into its time, the path the file came from
/// and its grave; fields after the third are ignored.
pub fn record_entry(line: &str) -> (item: RecordItem)
    requires
        is_record_text(line@),
    ensures
        item.time@ == fields(line@)[0],
        item.orig@ == fields(line@)[1],
        item.dest@ == fields(line@)[2],
{
    let v = chars_of(line);
    let n = v.len();
    let k1 = find_tab(&v, 0);
    proof {
        lemma_split_at(v@, 0, k1 as int);
        assert(v@.subrange(0, n as int) =~= v@);
    }
    let k2 = find_tab(&v, k1 + 1);
    proof {
        lemma_split_at(v@, k1 + 1, k2 as int);
    }
    let k3 = find_tab(&v, k2 + 1);
    proof {
        lemma_split_at(v@, k2 + 1, k3 as int);
        if k3 < n {
            lemma_fields_nonempty(v@.subrange(k3 + 1, n as int), seq![]);
        }
    }
    RecordItem {
        time: string_of(v.as_slice(), 0, k1),
        orig: string_of(v.as_slice(), k1 + 1, k2),
        dest: string_of(v.as_slice(), k2 + 1, k3),
    }
}

/// The line that records the burial of `orig` at `dest` at the time
/// written `time`.
pub fn record_line(time: &str, orig: &str, dest: &str) -> (line: String)
    ensures
        line@ == record_text(time@, orig@, dest@),
{
    let mut line = time.to_owned();
    line.push('\t');
    line.append(orig);
    line.push('\t');
    line.append(dest);
    line
}

/// Whether one of `graves` is, as a path, the same as `dest`.
fn names_any_of(graves: &Vec<String>, dest: &str) -> (found: bool)
    ensures
        found == names_any(dest@, graves.deep_view()),
{
    let mut k: usize = 0;
    while k < graves.len()
        invariant
            0 <= k <= graves@.len(),
            forall|j: int| 0 <= j < k ==> components(#[trigger] graves.deep_view()[j]) != components(dest@),
        decreases graves@.len() - k,
    {
        if path_eq(graves[k].as_str(), dest) {
            assert(graves.deep_view()[k as int] == graves@[k as int]@);
            return true;
        }
        assert(graves.deep_view()[k as int] == graves@[k as int]@);
        k = k + 1;
    }
    false
}

/// The lines of `lines` for which `keep` says whether the entry is that
/// of one of `graves`, in their order: with `keep` true those of the
/// graves, otherwise all the others.
fn select_lines(lines: &Vec<String>, graves: &Vec<String>, keep: bool) -> (r: Vec<String>)
    requires
        graves@.len() > 0 ==> all_record_lines(lines.deep_view()),
    ensures
        keep ==> r.deep_view() == lines.deep_view().filter(line_of_any(graves.deep_view())),
        !keep ==> r.deep_view() == lines.deep_view().filter(line_of_none(graves.deep_view())),
{
    let ghost pred = if keep {
        line_of_any(graves.deep_view())
    } else {
        line_of_none(graves.deep_view())
    };
    let ghost all = lines.deep_view();
    let mut out: Vec<String> = Vec::new();
    let mut i: usize = 0;
    assert(all.take(0) =~= seq![]);
    proof {
        reveal_with_fuel(Seq::<Seq<char>>::filter, 1);
    }
    while i < lines.len()
        invariant
            0 <= i <= lines@.len(),
            all == lines.deep_view(),
            graves@.len() > 0 ==> all_record_lines(all),
            pred == (if keep {
                line_of_any(graves.deep_view())
            } else {
                line_of_none(graves.deep_view())
            }),
            out.deep_view() == all.take(i as int).filter(pred),
        decreases lines@.len() - i,
    {
        let line = lines[i].as_str();
        assert(all[i as int] == line@);
        // With no graves to look for, no line needs to be read.
        let hit = if graves.len() == 0 {
            assert(!names_any(dest_of(line@), graves.deep_view()));
            false
        } else {
            assert(is_record_text(all[i as int]));
            let entry = record_entry(line);
            names_any_of(graves, entry.dest.as_str())
        };
        assert(all.take(i + 1).drop_last() =~= all.take(i as int));
        assert(all.take(i + 1).last() == line@);
        proof {
            reveal_with_fuel(Seq::<Seq<char>>::filter, 1);
        }
        if hit == keep {
            let ghost before = out.deep_view();
            out.push(lines[i].clone());
            assert(out.deep_view() =~= before.push(line@));
        }
        i = i + 1;
    }
    assert(all.take(lines@.len() as int) =~= all);
    out
}

/// The lines of the record that are entries of the given graves (paths
/// compared by their components), in record order.  When there are graves
/// to look for, every line must be a record entry; with none, no line is
/// read and none is returned.
pub fn lines_of_graves(lines: &Vec<String>, graves: &Vec<String>) -> (r: Vec<String>)
    requires
        graves@.len() > 0 ==> all_record_lines(lines.deep_view()),
    ensures
        r.deep_view() == lines.deep_view().filter(line_of_any(graves.deep_view())),
        graves@.len() == 0 ==> r@.len() == 0,
{
    proof {
        lemma_no_graves(lines.deep_view(), graves.deep_view());
    }
    select_lines(lines, graves, true)
}

/// The lines of the record that remain once the entries of the given
/// graves are taken out, in record order.  When there are graves to take
/// out, every line must be a record entry; with none, no line is read and
/// all remain.
pub fn remaining_record_lines(lines: &Vec<String>, graves: &Vec<String>) -> (r: Vec<String>)
    requires
        graves@.len() > 0 ==> all_record_lines(lines.deep_view()),
    ensures
        r.deep_view() == lines.deep_view().filter(line_of_none(graves.deep_view())),
        graves@.len() == 0 ==> r.deep_view() == lines.deep_view(),
{
    proof {
        lemma_no_graves(lines.deep_view(), graves.deep_view());
    }
    select_lines(lines, graves, false)
}

/// With no graves, no line is that of a grave and every line remains.
pub proof fn lemma_no_graves(lines: Seq<Seq<char>>, graves: Seq<Seq<char>>)
    ensures
        graves.len() == 0 ==> lines.filter(line_of_any(graves)).len() == 0,
        graves.len() == 0 ==> lines.filter(line_of_none(graves)) == lines,
    decreases lines.len(),
{
    reveal_with_fuel(Seq::<Seq<char>>::filter, 1);
    if graves.len() == 0 && lines.len() > 0 {
        let init = lines.drop_last();
        lemma_no_graves(init, graves);
        assert(!names_any(dest_of(lines.last()), graves));
        assert(init.push(lines.last()) =~= lines);
    }
}

/// The graves named in the record that lie under `gravepath`, in record
/// order.  Every line must be a record entry.
pub fn seance(lines: &Vec<String>, gravepath: &str) -> (r: Vec<String>)
    requires
        all_record_lines(lines.deep_view()),
    ensures
        r.deep_view() == lines.deep_view().filter(grave_under(gravepath@)).map_values(
            |line: Seq<char>| dest_of(line),
        ),
{
    let ghost pred = grave_under(gravepath@);
    let ghost all = lines.deep_view();
    let mut out: Vec<String> = Vec::new();
    let mut i: usize = 0;
    assert(all.take(0) =~= seq![]);
    proof {
        reveal_with_fuel(Seq::<Seq<char>>::filter, 1);
    }
    assert(all.take(0).filter(pred).map_values(|line: Seq<char>| dest_of(line)) =~= seq![]);
    while i < lines.len()
        invariant
            0 <= i <= lines@.len(),
            all == lines.deep_view(),
            all_record_lines(all),
            pred == grave_under(gravepath@),
            out.deep_view() == all.take(i as int).filter(pred).map_values(
                |line: Seq<char>| dest_of(line),
            ),
        decreases lines@.len() - i,
    {
        let line = lines[i].as_str();
        assert(all[i as int] == line@);
        assert(is_record_text(all[i as int]));
        let entry = record_entry(line);
        let under = path_starts_with(entry.dest.as_str(), gravepath);
        assert(all.take(i + 1).drop_last() =~= all.take(i as int));
        assert(all.take(i + 1).last() == line@);
        proof {
            reveal_with_fuel(Seq::<Seq<char>>::filter, 1);
        }
        if under {
            let ghost before = out.deep_view();
            let ghost kept = all.take(i as int).filter(pred);
            out.push(entry.dest);
            assert(kept.push(line@).map_values(|line: Seq<char>| dest_of(line)) =~= kept.map_values(
                |line: Seq<char>| dest_of(line),
            ).push(dest_of(line@)));
            assert(out.deep_view() =~= before.push(dest_of(line@)));
        }
        i = i + 1;
    }
    assert(all.take(lines@.len() as int) =~= all);
    out
}

/// `l` is a merge of `a` and `b`: its elements can be dealt out, in order,
/// into `a` and `b`.
pub open spec fn interleaves(a: Seq<Seq<char>>, b: Seq<Seq<char>>, l: Seq<Seq<char>>) -> bool
    decreases l.len(),
{
    if l.len() == 0 {
        a.len() == 0 && b.len() == 0
    } else {
        ||| (a.len() > 0 && a.last() == l.last() && interleaves(a.drop_last(), b, l.drop_last()))
        ||| (b.len() > 0 && b.last() == l.last() && interleaves(a, b.drop_last(), l.drop_last()))
    }
}

/// The entries of the graves and the other entries divide the record
/// between them: every line is in exactly one of the two, as often as in
/// the record, and merging the two in order gives back the record.
pub proof fn lemma_record_partition(lines: Seq<Seq<char>>, graves: Seq<Seq<char>>)
    ensures
        interleaves(
            lines.filter(line_of_any(graves)),
            lines.filter(line_of_none(graves)),
            lines,
        ),
        lines.filter(line_of_any(graves)).to_multiset().add(
            lines.filter(line_of_none(graves)).to_multiset(),
        ) == lines.to_multiset(),
        lines.filter(line_of_any(graves)).len() + lines.filter(line_of_none(graves)).len()
            == lines.len(),
    decreases lines.len(),
{
    broadcast use vstd::seq_lib::group_to_multiset_ensures;

    reveal_with_fuel(Seq::<Seq<char>>::filter, 1);
    if lines.len() == 0 {
        assert(lines.to_multiset() =~= Multiset::empty());
        assert(lines.filter(line_of_any(graves)) =~= lines);
        assert(lines.filter(line_of_none(graves)) =~= lines);
        assert(Multiset::<Seq<char>>::empty().add(Multiset::empty()) =~= Multiset::empty());
    } else {
        let init = lines.drop_last();
        let x = lines.last();
        lemma_record_partition(init, graves);
        assert(lines =~= init.push(x));
        assert(lines.drop_last() =~= init);
        if line_of_any(graves)(x) {
            assert(lines.filter(line_of_any(graves)).drop_last() =~= init.filter(line_of_any(graves)));
            assert(init.filter(line_of_any(graves)).push(x).to_multiset().add(
                init.filter(line_of_none(graves)).to_multiset(),
            ) =~= init.filter(line_of_any(graves)).to_multiset().add(
                init.filter(line_of_none(graves)).to_multiset(),
            ).insert(x));
        } else {
            assert(lines.filter(line_of_none(graves)).drop_last() =~= init.filter(line_of_none(graves)));
            assert(init.filter(line_of_any(graves)).to_multiset().add(
                init.filter(line_of_none(graves)).push(x).to_multiset(),
            ) =~= init.filter(line_of_any(graves)).to_multiset().add(
                init.filter(line_of_none(graves)).to_multiset(),
            ).insert(x));
        }
    }
}

/// What the search for the last burial found: the grave of the latest
/// entry whose grave is still there, the graves of the entries after it,
/// latest first, that are gone, and the index of the line at which the
/// search stopped because it was no record entry, if it did.
pub struct LastBury {
    pub grave: Option<String>,
    pub missing: Vec<String>,
    pub malformed: Option<usize>,
}

/// Looks through the record from its last line back for a grave that
/// `taken` reports still there.  The graves reported gone on the way are
/// collected, so that their lines can be taken out of the record.  Each
/// line is read only when the search reaches it; the search stops at the
/// first line met that is no record entry, and says which one it was.
pub fn get_last_bury<F: Fn(&str) -> bool>(lines: &Vec<String>, taken: &F) -> (r: LastBury)
    requires
        forall|s: &str| #[trigger] taken.requires((s,)),
    ensures
        r.missing@.len() <= lines@.len(),
        forall|k: int|
            lines@.len() - r.missing@.len() <= k < lines@.len() ==> is_record_text(
                #[trigger] lines.deep_view()[k],
            ),
        forall|j: int|
            0 <= j < r.missing@.len() ==> #[trigger] r.missing.deep_view()[j] == dest_of(
                lines.deep_view()[lines@.len() - 1 - j],
            ) && reported(*taken, r.missing.deep_view()[j], false),
        match r.malformed {
            Some(k) => r.grave is None && r.missing@.len() < lines@.len() && k == lines@.len() - 1
                - r.missing@.len() && !is_record_text(lines.deep_view()[k as int]),
            None => true,
        },
        match r.grave {
            Some(g) => r.missing@.len() < lines@.len() && is_record_text(
                lines.deep_view()[lines@.len() - 1 - r.missing@.len()],
            ) && g@ == dest_of(lines.deep_view()[lines@.len() - 1 - r.missing@.len()])
                && reported(*taken, g@, true),
            None => r.malformed is Some || r.missing@.len() == lines@.len(),
        },
{
    let ghost all = lines.deep_view();
    let n = lines.len();
    let mut missing: Vec<String> = Vec::new();
    let mut i = n;
    while i > 0
        invariant
            0 <= i <= n,
            n == lines@.len(),
            all == lines.deep_view(),
            forall|s: &str| #[trigger] taken.requires((s,)),
            missing@.len() == n - i,
            forall|k: int| i <= k < n ==> is_record_text(#[trigger] all[k]),
            forall|j: int|
                0 <= j < missing@.len() ==> #[trigger] missing.deep_view()[j] == dest_of(
                    all[n - 1 - j],
                ) && reported(*taken, missing.deep_view()[j], false),
        decreases i,
    {
        let line = lines[i - 1].as_str();
        assert(all[i - 1] == line@);
        if !is_record_line(line) {
            return LastBury { grave: None, missing, malformed: Some(i - 1) };
        }
        let entry = record_entry(line);
        let dest = entry.dest.as_str();
        if taken(dest) {
            assert(reported(*taken, dest@, true));
            return LastBury { grave: Some(entry.dest), missing, malformed: None };
        }
        assert(reported(*taken, dest@, false));
        let ghost before = missing.deep_view();
        missing.push(entry.dest);
        assert(missing.deep_view() =~= before.push(dest_of(all[i - 1])));
        assert(is_record_text(all[i - 1]));
        i = i - 1;
    }
    LastBury { grave: None, missing, malformed: None }
}

/// A burial can be undone: the line that records `orig` buried at `dest`
/// is found again by the grave `dest`, and gives `orig` back.
pub proof fn lemma_burial_found_by_grave(time: Seq<char>, orig: Seq<char>, dest: Seq<char>)
    requires
        tab_free(time),
        tab_free(orig),
        tab_free(dest),
    ensures
        line_of_any(seq![dest])(record_text(time, orig, dest)),
        fields(record_text(time, orig, dest))[1] == orig,
{
    lemma_record_roundtrip(time, orig, dest);
    let graves = seq![dest];
    assert(components(graves[0]) == components(dest_of(record_text(time, orig, dest))));
}

/// Once the entries of some graves are taken out of the record, no line
/// left names any of them.
pub proof fn lemma_removed_graves_gone(lines: Seq<Seq<char>>, graves: Seq<Seq<char>>)
    ensures
        forall|i: int|
            0 <= i < lines.filter(line_of_none(graves)).len() ==> !names_any(
                dest_of(#[trigger] lines.filter(line_of_none(graves))[i]),
                graves,
            ),
{
    assert forall|i: int| 0 <= i < lines.filter(line_of_none(graves)).len() implies !names_any(
        dest_of(#[trigger] lines.filter(line_of_none(graves))[i]),
        graves,
    ) by {
        lines.lemma_filter_pred(line_of_none(graves), i);
    }
}

} // verus!
