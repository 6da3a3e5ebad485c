//! The one-line text input of the command and search modes: a string, a cursor counted in
//! bytes, and the lines entered before.
use vstd::prelude::*;
use crate::chars::{byte_len, byte_offset, char_at_byte, char_boundary, string_byte_len, string_insert, string_remove, lemma_insert_bytes, lemma_remove_bytes, lemma_char_at_byte, lemma_byte_offset_bound, lemma_insert_then_remove};

verus! {

/// The texts of a list of strings.
pub open spec fn texts(v: Seq<String>) -> Seq<Seq<char>> {
    v.map_values(|s: String| s@)
}

/// The line after typing `c` at byte position `cursor`.
pub open spec fn typed(key: Seq<char>, cursor: int, c: char) -> Seq<char> {
    key.insert(char_at_byte(key, cursor), c)
}

/// The line after deleting the character that starts one byte before `cursor`; the line
/// itself when the cursor is at its start.
pub open spec fn erased(key: Seq<char>, cursor: int) -> Seq<char> {
    if cursor > 0 {
        key.remove(char_at_byte(key, cursor - 1))
    } else {
        key
    }
}

/// Deleting right after typing a character gives the line back, and the cursor with it:
/// after the insertion the cursor is one byte further, the byte before it still starts a
/// character, and that character is the one typed.
pub proof fn lemma_delete_undoes_insert(key: Seq<char>, cursor: int, c: char)
    requires
        0 <= cursor <= byte_len(key),
        char_boundary(key, cursor),
    ensures
        cursor + 1 <= byte_len(typed(key, cursor, c)),
        char_boundary(typed(key, cursor, c), (cursor + 1) - 1),
        erased(typed(key, cursor, c), cursor + 1) == key,
        (cursor + 1) - 1 == cursor,
{
    lemma_insert_then_remove(key, cursor, c);
}

/// A line of text being typed, with the cursor as a byte position into it.
pub struct Input {
    pub key: String,
    pub cursor: usize,
    pub history: Vec<String>,
}

impl Input {
    /// The lines entered before, oldest first.
    pub open spec fn past(&self) -> Seq<Seq<char>> {
        texts(self.history@)
    }

    /// The cursor lies within the text.
    pub open spec fn wf(&self) -> bool {
        self.cursor <= byte_len(self.key@)
    }

    /// An empty line with the cursor at its start and no history.
    pub fn new() -> (res: Input)
        ensures
            res.key@ == Seq::<char>::empty(),
            res.cursor == 0,
            res.past() == Seq::<Seq<char>>::empty(),
            res.wf(),
    {
        Input::default()
    }

    /// A copy of the text.
    pub fn key(&self) -> (res: String)
        ensures
            res@ == self.key@,
    {
        self.key.clone()
    }

    /// Replaces the text and puts the cursor after its last byte.
    pub fn set(&mut self, key: String)
        ensures
            final(self).key@ == key@,
            final(self).cursor == byte_len(key@),
            final(self).past() == old(self).past(),
            final(self).wf(),
    {
        self.key = key;
        self.cursor = string_byte_len(&self.key);
    }

    /// Moves the cursor one byte forward, unless it is at the end.
    pub fn front(&mut self)
        ensures
            final(self).key@ == old(self).key@,
            final(self).cursor == (if old(self).cursor < byte_len(old(self).key@) {
                old(self).cursor + 1
            } else {
                old(self).cursor as int
            }),
            final(self).past() == old(self).past(),
            old(self).wf() ==> final(self).wf(),
    {
        if self.cursor < string_byte_len(&self.key) {
            self.cursor += 1;
        }
    }

    /// Moves the cursor one byte back, unless it is at the start.
    pub fn back(&mut self)
        ensures
            final(self).key@ == old(self).key@,
            final(self).cursor == (if old(self).cursor > 0 {
                old(self).cursor - 1
            } else {
                0
            }),
            final(self).past() == old(self).past(),
            old(self).wf() ==> final(self).wf(),
    {
        if self.cursor > 0 {
            self.cursor -= 1;
        }
    }

    /// Inserts `c` where the cursor is and moves the cursor one byte forward.
    pub fn insert(&mut self, c: char)
        requires
            old(self).wf(),
            char_boundary(old(self).key@, old(self).cursor as int),
            byte_len(old(self).key@) < usize::MAX,
        ensures
            final(self).key@ == typed(old(self).key@, old(self).cursor as int, c),
            final(self).cursor == old(self).cursor + 1,
            final(self).past() == old(self).past(),
            final(self).wf(),
    {
        proof {
            let k = char_at_byte(self.key@, self.cursor as int);
            lemma_insert_bytes(self.key@, k, c);
        }
        string_insert(&mut self.key, self.cursor, c);
        self.cursor += 1;
    }

    /// Deletes the character that starts one byte before the cursor and moves the cursor one
    /// byte back; does nothing at the start of the line.
    pub fn delete(&mut self)
        requires
            old(self).wf(),
            old(self).cursor > 0 ==> char_boundary(old(self).key@, old(self).cursor - 1),
        ensures
            final(self).key@ == erased(old(self).key@, old(self).cursor as int),
            final(self).cursor == (if old(self).cursor > 0 { old(self).cursor - 1 } else { 0 }),
            final(self).past() == old(self).past(),
            final(self).wf(),
    {
        if self.cursor > 0 {
            self.cursor -= 1;
            proof {
                let k = char_at_byte(self.key@, self.cursor as int);
                if k == self.key@.len() {
                    assert(self.key@.take(k) =~= self.key@);
                }
                lemma_remove_bytes(self.key@, k);
                lemma_byte_offset_bound(self.key@.remove(k), k);
            }
            string_remove(&mut self.key, self.cursor);
        }
    }

    /// Keeps the line in the history and empties it.
    pub fn clear(&mut self)
        ensures
            final(self).key@ == Seq::<char>::empty(),
            final(self).cursor == 0,
            final(self).past() == old(self).past().push(old(self).key@),
            final(self).wf(),
    {
        let ghost h = self.history@;
        self.history.push(self.key.clone());
        self.key = String::new();
        self.cursor = 0;
        assert(texts(self.history@) =~= texts(h).push(old(self).key@));
    }
}

impl Default for Input {
    fn default() -> (res: Input)
        ensures
            res.key@ == Seq::<char>::empty(),
            res.cursor == 0,
            res.past() == Seq::<Seq<char>>::empty(),
    {
        let res = Input { key: String::new(), cursor: 0, history: Vec::new() };
        assert(res.past() =~= Seq::<Seq<char>>::empty());
        res
    }
}

} // verus!
