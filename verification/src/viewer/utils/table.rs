//! A table with an optional selected row, as the help screen shows it.
use vstd::prelude::*;
use vstd::string::*;
use crate::viewer::utils::input::texts;
use crate::viewer::utils::list::{next_selection, previous_selection};

verus! {

/// A header, rows of text, and the index of the selected row.
pub struct Table {
    pub state: Option<usize>,
    pub header: Vec<String>,
    pub rows: Vec<Vec<String>>,
}

/// The texts of the rows of a table.
pub open spec fn rows_texts(rows: Seq<Vec<String>>) -> Seq<Seq<Seq<char>>> {
    rows.map_values(|r: Vec<String>| texts(r@))
}

/// Owned copies of a list of texts.
fn owned(words: &[&str]) -> (res: Vec<String>)
    ensures
        texts(res@) == words@.map_values(|w: &str| w@),
{
    let mut res: Vec<String> = Vec::new();
    for i in 0..words.len()
        invariant
            texts(res@) == words@.take(i as int).map_values(|w: &str| w@),
    {
        let ghost before = res@;
        let w = String::from_str(words[i]);
        res.push(w);
        assert(texts(res@) =~= texts(before).push(words@[i as int]@));
        assert(words@.take(i + 1).map_values(|w: &str| w@) =~= words@.take(i as int).map_values(|w: &str| w@).push(words@[i as int]@));
    }
    assert(words@.take(words@.len() as int) =~= words@);
    res
}

impl Table {
    /// The selection, if any, points at a row.
    pub open spec fn wf(&self) -> bool {
        self.state matches Some(i) ==> i < self.rows.len()
    }

    /// A table of the header and rows, with the first row selected if there is one.
    pub fn new(header: &[&str], rows: &[&[&str]]) -> (res: Table)
        ensures
            texts(res.header@) == header@.map_values(|w: &str| w@),
            rows_texts(res.rows@) == rows@.map_values(|r: &[&str]| r@.map_values(|w: &str| w@)),
            res.state == (if rows@.len() > 0 { Some(0usize) } else { None }),
            res.wf(),
    {
        let state = if rows.len() > 0 { Some(0) } else { None };
        let h = owned(header);
        let mut rs: Vec<Vec<String>> = Vec::new();
        for i in 0..rows.len()
            invariant
                rows_texts(rs@) == rows@.take(i as int).map_values(|r: &[&str]| r@.map_values(|w: &str| w@)),
        {
            let ghost before = rs@;
            let row = owned(rows[i]);
            rs.push(row);
            assert(rows_texts(rs@) =~= rows_texts(before).push(rows@[i as int]@.map_values(|w: &str| w@)));
            assert(rows@.take(i + 1).map_values(|r: &[&str]| r@.map_values(|w: &str| w@)) =~= rows@.take(i as int).map_values(|r: &[&str]| r@.map_values(|w: &str| w@)).push(rows@[i as int]@.map_values(|w: &str| w@)));
        }
        assert(rows@.take(rows@.len() as int) =~= rows@);
        Table { state, header: h, rows: rs }
    }

    /// Selects the next row, wrapping around after the last one.
    pub fn next(&mut self)
        requires
            old(self).rows.len() > 0,
            old(self).wf(),
        ensures
            final(self).rows@ == old(self).rows@,
            final(self).header@ == old(self).header@,
            final(self).state == next_selection(old(self).state, old(self).rows.len() as int),
            final(self).wf(),
    {
        let i = match self.state {
            Some(i) => if i >= self.rows.len() - 1 { 0 } else { i + 1 },
            None => 0,
        };
        self.state = Some(i);
    }

    /// Selects the previous row, wrapping around before the first one.
    pub fn previous(&mut self)
        requires
            old(self).rows.len() > 0,
            old(self).wf(),
        ensures
            final(self).rows@ == old(self).rows@,
            final(self).header@ == old(self).header@,
            final(self).state == previous_selection(old(self).state, old(self).rows.len() as int),
            final(self).wf(),
    {
        let i = match self.state {
            Some(i) => if i == 0 { self.rows.len() - 1 } else { i - 1 },
            None => 0,
        };
        self.state = Some(i);
    }
}

} // verus!
