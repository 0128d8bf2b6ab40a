//! The program under execution: its tokenized lines, the label table
//! derived from them, and the cursor that names the line executed next.
//!
//! A label is a line of exactly one token whose first character is `#`.
//! Execution begins at the line after the mandatory `#start` label; a
//! jump moves the cursor onto a label line so that the following fetch
//! resumes at the line after it.

use crate::defs::{str_eq, VmError};
use vstd::prelude::*;

verus! {

/// A label declaration: its `#`-prefixed name and the index of the line
/// on which it stands.
pub struct Label {
    pub name: String,
    pub index: usize,
}

impl Label {
    /// The pair this declaration contributes to the label table.
    pub open spec fn entry(&self) -> (Seq<char>, int) {
        (self.name@, self.index as int)
    }
}

/// The table a vector of declarations stands for.
pub open spec fn label_entries(labels: Seq<Label>) -> Seq<(Seq<char>, int)> {
    Seq::new(labels.len(), |k: int| labels[k].entry())
}

/// A line of exactly one token whose first character is `#`.
pub open spec fn is_label_line(line: Seq<Seq<char>>) -> bool {
    line.len() == 1 && line[0].len() > 0 && line[0][0] == '#'
}

/// The label table of a program: the token and the line index of every
/// label line, in program order.
pub open spec fn labels_of(lines: Seq<Seq<Seq<char>>>) -> Seq<(Seq<char>, int)>
    decreases lines.len(),
{
    if lines.len() == 0 {
        Seq::empty()
    } else {
        labels_of(lines.drop_last()) + if is_label_line(lines.last()) {
            seq![(lines.last()[0], lines.len() - 1)]
        } else {
            Seq::empty()
        }
    }
}

/// Every index in a label table names a line of the program.
pub proof fn lemma_labels_of_bounds(lines: Seq<Seq<Seq<char>>>)
    ensures
        forall|k: int|
            0 <= k < labels_of(lines).len() ==> 0 <= #[trigger] labels_of(lines)[k].1
                < lines.len(),
    decreases lines.len(),
{
    if lines.len() > 0 {
        lemma_labels_of_bounds(lines.drop_last());
        let prefix = labels_of(lines.drop_last());
        assert forall|k: int|
            0 <= k < labels_of(lines).len() implies 0 <= #[trigger] labels_of(lines)[k].1
            < lines.len() by {
            if k < prefix.len() {
                assert(labels_of(lines)[k] == prefix[k]);
            } else {
                assert(labels_of(lines)[k].1 == lines.len() - 1);
            }
        }
    }
}

/// The entry point: the index recorded for the first label named
/// `#start`, if any.
pub open spec fn find_start_in(labels: Seq<(Seq<char>, int)>) -> Option<int>
    decreases labels.len(),
{
    if labels.len() == 0 {
        None
    } else if labels[0].0 == "#start"@ {
        Some(labels[0].1)
    } else {
        find_start_in(labels.drop_first())
    }
}

/// Where a jump lands: the index recorded for the last label carrying
/// `name`, or nothing when no label does.
pub open spec fn jump_target(labels: Seq<(Seq<char>, int)>, name: Seq<char>) -> Option<int>
    decreases labels.len(),
{
    if labels.len() == 0 {
        None
    } else if labels.last().0 == name {
        Some(labels.last().1)
    } else {
        jump_target(labels.drop_last(), name)
    }
}

/// A found entry point is one of the table's indices.
pub proof fn lemma_find_start_bounds(labels: Seq<(Seq<char>, int)>, ix: int)
    requires
        find_start_in(labels) == Some(ix),
    ensures
        exists|k: int| 0 <= k < labels.len() && labels[k].1 == ix,
    decreases labels.len(),
{
    if labels.len() > 0 {
        if labels[0].0 == "#start"@ {
            assert(labels[0].1 == ix);
        } else {
            lemma_find_start_bounds(labels.drop_first(), ix);
            let k = choose|k: int|
                0 <= k < labels.drop_first().len() && labels.drop_first()[k].1 == ix;
            assert(labels[k + 1].1 == ix);
        }
    }
}

/// A found jump target is one of the table's indices.
pub proof fn lemma_jump_target_bounds(labels: Seq<(Seq<char>, int)>, name: Seq<char>, ix: int)
    requires
        jump_target(labels, name) == Some(ix),
    ensures
        exists|k: int| 0 <= k < labels.len() && labels[k].1 == ix,
    decreases labels.len(),
{
    if labels.len() > 0 && labels.last().0 != name {
        lemma_jump_target_bounds(labels.drop_last(), name, ix);
    }
}

/// The program: lines of tokens, the label table scanned from them once,
/// and the cursor.
pub struct Source {
    source: Vec<Vec<String>>,
    labels: Vec<Label>,
    ip: usize,
}

impl Source {
    /// The program's lines.
    pub closed spec fn lines(&self) -> Seq<Seq<Seq<char>>> {
        self.source.deep_view()
    }

    /// The cursor: the index of the line fetched or executed last.
    pub closed spec fn cur(&self) -> int {
        self.ip as int
    }

    /// The label table matches the lines and the cursor stays within the
    /// program, one past its last line included.
    pub closed spec fn wf(&self) -> bool {
        &&& label_entries(self.labels@) == labels_of(self.lines())
        &&& self.ip <= self.lines().len()
    }

    /// A well-formed program holds its cursor within bounds, one past
    /// the last line included.
    pub proof fn lemma_wf_bounds(&self)
        requires
            self.wf(),
        ensures
            self.cur() <= self.lines().len(),
    {
    }

    /// Scans every line and records an entry for each label line.
    fn labels(source: &Vec<Vec<String>>) -> (r: Vec<Label>)
        ensures
            label_entries(r@) == labels_of(source.deep_view()),
    {
        let ghost lv = source.deep_view();
        let mut labels: Vec<Label> = Vec::new();
        let mut i: usize = 0;
        proof {
            assert(lv.take(0) =~= Seq::<Seq<Seq<char>>>::empty());
            assert(label_entries(labels@) =~= labels_of(lv.take(0)));
        }
        while i < source.len()
            invariant
                lv == source.deep_view(),
                i <= source.len(),
                source.len() == lv.len(),
                label_entries(labels@) == labels_of(lv.take(i as int)),
            decreases source.len() - i,
        {
            let ghost prev = labels@;
            let line = &source[i];
            let is_label = line.len() == 1 && {
                let token = &line[0];
                token.as_str().unicode_len() > 0 && token.as_str().get_char(0) == '#'
            };
            if is_label {
                let entry = Label { name: line[0].clone(), index: i };
                labels.push(entry);
            }
            proof {
                let i0 = i as int;
                assert(lv.take(i0 + 1).drop_last() =~= lv.take(i0));
                assert(lv.take(i0 + 1).last() == lv[i0]);
                assert(lv[i0] == source@[i0].deep_view());
                assert(is_label == is_label_line(lv[i0]));
                if is_label {
                    assert(labels@ == prev.push(labels@.last()));
                    assert(labels@.last().entry() == (lv[i0][0], i0));
                    assert(label_entries(labels@) =~= labels_of(lv.take(i0)) + seq![
                        (lv.take(i0 + 1).last()[0], i0),
                    ]);
                } else {
                    assert(label_entries(labels@) =~= labels_of(lv.take(i0))
                        + Seq::<(Seq<char>, int)>::empty());
                }
                assert(label_entries(labels@) == labels_of(lv.take(i0 + 1)));
            }
            i += 1;
        }
        proof {
            assert(lv.take(source.len() as int) =~= lv);
        }
        labels
    }

    /// Finds the entry point among the scanned labels.
    fn find_start(labels: &Vec<Label>) -> (r: Result<usize, VmError>)
        ensures
            match r {
                Ok(ip) => find_start_in(label_entries(labels@)) == Some(ip as int),
                Err(e) => e == VmError::EntryPointNotFound && find_start_in(label_entries(labels@))
                    is None,
            },
    {
        let ghost entries = label_entries(labels@);
        let mut i: usize = 0;
        proof {
            assert(entries.skip(0) =~= entries);
        }
        while i < labels.len()
            invariant
                entries == label_entries(labels@),
                i <= labels.len(),
                labels.len() == entries.len(),
                find_start_in(entries) == find_start_in(entries.skip(i as int)),
            decreases labels.len() - i,
        {
            let ghost i0 = i as int;
            if str_eq(labels[i].name.as_str(), "#start") {
                proof {
                    assert(entries.skip(i0)[0] == entries[i0]);
                }
                return Ok(labels[i].index);
            }
            proof {
                assert(entries.skip(i0)[0] == entries[i0]);
                assert(entries.skip(i0).drop_first() =~= entries.skip(i0 + 1));
            }
            i += 1;
        }
        proof {
            assert(entries.skip(labels.len() as int).len() == 0);
        }
        Err(VmError::EntryPointNotFound)
    }

    /// Builds the program from its tokenized lines: scans the label
    /// table and places the cursor on the `#start` label.  A program
    /// without that label is rejected, and nothing of it runs.
    pub fn new(source: Vec<Vec<String>>) -> (r: Result<Source, VmError>)
        ensures
            match r {
                Ok(src) => {
                    &&& src.wf()
                    &&& src.lines() == source.deep_view()
                    &&& Some(src.cur()) == find_start_in(labels_of(source.deep_view()))
                },
                Err(e) => {
                    &&& e == VmError::EntryPointNotFound
                    &&& find_start_in(labels_of(source.deep_view())) is None
                },
            },
    {
        let labels = Self::labels(&source);
        match Self::find_start(&labels) {
            Ok(ip) => {
                proof {
                    let lv = source.deep_view();
                    lemma_labels_of_bounds(lv);
                    lemma_find_start_bounds(labels_of(lv), ip as int);
                }
                Ok(Source { source, labels, ip })
            },
            Err(e) => Err(e),
        }
    }

    /// The cursor's current value.
    pub fn ip(&self) -> (r: usize)
        ensures
            r == self.cur(),
    {
        self.ip
    }

    /// How many lines the program has.
    pub fn len(&self) -> (r: usize)
        ensures
            r == self.lines().len(),
    {
        self.source.len()
    }

    /// Moves the cursor.  A value past one-past-the-end of the program
    /// is ignored, so the cursor always stays within bounds.
    pub fn mut_ip(&mut self, ip: usize)
        requires
            old(self).wf(),
        ensures
            final(self).wf(),
            final(self).lines() == old(self).lines(),
            ip <= old(self).lines().len() ==> final(self).cur() == ip as int,
            ip > old(self).lines().len() ==> final(self).cur() == old(self).cur(),
    {
        if ip <= self.source.len() {
            self.ip = ip;
        }
    }

    /// Where a jump on `name` lands, by the last matching label.
    pub fn find_label(&self, name: &str) -> (r: Option<usize>)
        requires
            self.wf(),
        ensures
            match r {
                Some(ix) => jump_target(labels_of(self.lines()), name@) == Some(ix as int) && ix
                    < self.lines().len(),
                None => jump_target(labels_of(self.lines()), name@) is None,
            },
    {
        let ghost entries = label_entries(self.labels@);
        let mut k: usize = self.labels.len();
        proof {
            assert(entries.take(k as int) =~= entries);
        }
        while k > 0
            invariant
                self.wf(),
                entries == label_entries(self.labels@),
                k <= self.labels.len(),
                self.labels.len() == entries.len(),
                jump_target(entries, name@) == jump_target(entries.take(k as int), name@),
            decreases k,
        {
            k -= 1;
            let ghost k0 = k as int;
            proof {
                assert(entries.take(k0 + 1).last() == entries[k0]);
                assert(entries.take(k0 + 1).drop_last() =~= entries.take(k0));
            }
            if str_eq(self.labels[k].name.as_str(), name) {
                proof {
                    lemma_labels_of_bounds(self.lines());
                    lemma_jump_target_bounds(labels_of(self.lines()), name@, entries[k0].1);
                    let found = choose|j: int|
                        0 <= j < labels_of(self.lines()).len() && labels_of(self.lines())[j].1
                            == entries[k0].1;
                }
                return Some(self.labels[k].index);
            }
        }
        proof {
            assert(entries.take(0).len() == 0);
        }
        None
    }

    /// Fetches the next line: advances the cursor and hands back a copy
    /// of the line it now names, or nothing when the program is over.
    pub fn next(&mut self) -> (r: Option<Vec<String>>)
        requires
            old(self).wf(),
        ensures
            final(self).wf(),
            final(self).lines() == old(self).lines(),
            old(self).cur() == old(self).lines().len() ==> r is None && final(self).cur() == old(
                self).cur(),
            old(self).cur() + 1 == old(self).lines().len() ==> r is None && final(self).cur()
                == old(self).cur() + 1,
            old(self).cur() + 1 < old(self).lines().len() ==> match r {
                Some(line) => line.deep_view() == old(self).lines()[old(self).cur() + 1] && final(
                    self).cur() == old(self).cur() + 1,
                None => false,
            },
    {
        if self.ip >= self.source.len() {
            return None;
        }
        self.ip = self.ip + 1;
        if self.ip == self.source.len() {
            return None;
        }
        let line = self.source[self.ip].clone();
        proof {
            let orig = self.source@[self.ip as int];
            assert(forall|j: int|
                0 <= j < orig@.len() ==> cloned::<String>(orig@[j], #[trigger] line@[j]));
            assert(forall|j: int| 0 <= j < orig@.len() ==> orig@[j]@ == #[trigger] line@[j]@);
            assert(line.deep_view() =~= orig.deep_view());
        }
        Some(line)
    }

    /// The 1-based number of the current line and its text, the tokens
    /// joined by single spaces.
    pub fn at(&self) -> (r: (usize, String))
        requires
            self.wf(),
            self.cur() < self.lines().len(),
        ensures
            r.0 == self.cur() + 1,
            r.1@ == join_spaces(self.lines()[self.cur()]),
    {
        let line = &self.source[self.ip];
        let ghost toks = self.lines()[self.cur()];
        let mut text = String::new();
        let mut k: usize = 0;
        proof {
            assert(toks.take(0) =~= Seq::<Seq<char>>::empty());
        }
        while k < line.len()
            invariant
                line == &self.source@[self.cur()],
                toks == self.lines()[self.cur()],
                self.cur() < self.lines().len(),
                k <= line.len(),
                line@.len() == toks.len(),
                text@ == join_spaces(toks.take(k as int)),
            decreases line.len() - k,
        {
            let ghost k0 = k as int;
            if k > 0 {
                text.append(" ");
            }
            text.append(line[k].as_str());
            proof {
                reveal_strlit(" ");
                assert(" "@ =~= seq![' ']);
                assert(toks.take(k0 + 1).drop_last() =~= toks.take(k0));
                assert(toks.take(k0 + 1).last() == toks[k0]);
                if k0 == 0 {
                    assert(join_spaces(toks.take(1)) == toks[0]);
                    assert(text@ =~= toks[0]);
                } else {
                    assert(text@ =~= join_spaces(toks.take(k0)) + seq![' '] + toks[k0]);
                }
            }
            k += 1;
        }
        proof {
            assert(toks.take(line@.len() as int) =~= toks);
        }
        let _total = self.source.len();
        (self.ip + 1, text)
    }
}

/// The text of a line: its tokens joined by single spaces.
pub open spec fn join_spaces(tokens: Seq<Seq<char>>) -> Seq<char>
    decreases tokens.len(),
{
    if tokens.len() == 0 {
        Seq::empty()
    } else if tokens.len() == 1 {
        tokens[0]
    } else {
        join_spaces(tokens.drop_last()) + seq![' '] + tokens.last()
    }
}

} // verus!
