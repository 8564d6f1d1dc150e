//! Service names by port.
//!
//! A table of services is read from text that holds a header line and then
//! one service on each line: its name, a comma, its port, and whatever else
//! may follow after one more comma. Where a port stands on several lines the
//! last of them counts.

use crate::scanners::text::{chars_of, port_number, read_port};
use std::collections::HashMap;
use vstd::prelude::*;

verus! {

/// Whether `at` is where `c` first stands in `text`, or the length of
/// `text` where `c` does not stand in it.
pub open spec fn is_first(text: Seq<char>, c: char, at: int) -> bool {
    &&& 0 <= at <= text.len()
    &&& at < text.len() ==> text[at] == c
    &&& forall|k: int| 0 <= k < at ==> text[k] != c
}

/// Where `c` first stands in `text`, or the length of `text` where it does not.
pub open spec fn first_at(text: Seq<char>, c: char) -> int {
    choose|at: int| is_first(text, c, at)
}

/// There is one place where a character first stands.
pub proof fn lemma_first_at(text: Seq<char>, c: char, at: int)
    requires
        is_first(text, c, at),
    ensures
        first_at(text, c) == at,
{
    let found = first_at(text, c);
    if found < at {
        assert(text[found] != c);
    }
    if at < found {
        assert(text[at] != c);
    }
}

/// A line without the carriage return that stood before its line feed.
pub open spec fn without_return(line: Seq<char>) -> Seq<char> {
    if line.len() > 0 && line.last() == '\r' {
        line.drop_last()
    } else {
        line
    }
}

/// The lines of `text`. A line ends with a line feed, or with a carriage
/// return and a line feed, neither of which belongs to the line; the last
/// line may end with the text. A text that ends with a line feed has no
/// empty line after it.
pub open spec fn lines_of(text: Seq<char>) -> Seq<Seq<char>>
    decreases text.len(),
{
    if text.len() == 0 {
        Seq::empty()
    } else {
        let at = first_at(text, '\n');
        if 0 <= at < text.len() {
            seq![without_return(text.subrange(0, at))] + lines_of(
                text.subrange(at + 1, text.len() as int),
            )
        } else {
            seq![text]
        }
    }
}

/// The port and the name that a line gives: the name is what stands before
/// the first comma, the port what stands between the first comma and the
/// second, or the end of the line. A line without comma, or with no port
/// number in that place, gives nothing.
pub open spec fn entry_of(line: Seq<char>) -> Option<(u16, Seq<char>)> {
    let comma = first_at(line, ',');
    if 0 <= comma < line.len() {
        let rest = line.subrange(comma + 1, line.len() as int);
        match port_number(rest.subrange(0, first_at(rest, ','))) {
            Some(port) => Some((port, line.subrange(0, comma))),
            None => None,
        }
    } else {
        None
    }
}

/// The table that `lines` give, each line adding its entry to what the
/// lines before it gave; none if one of the lines gives no entry.
pub open spec fn table_of(lines: Seq<Seq<char>>) -> Option<Map<u16, Seq<char>>>
    decreases lines.len(),
{
    if lines.len() == 0 {
        Some(Map::empty())
    } else {
        match (table_of(lines.drop_last()), entry_of(lines.last())) {
            (Some(table), Some((port, name))) => Some(table.insert(port, name)),
            _ => None,
        }
    }
}

/// The table that a text gives: that of its lines after the first, which
/// is a header.
pub open spec fn services_of(text: Seq<char>) -> Option<Map<u16, Seq<char>>> {
    let lines = lines_of(text);
    if lines.len() == 0 {
        Some(Map::empty())
    } else {
        table_of(lines.subrange(1, lines.len() as int))
    }
}

/// Lines that give no table give none whatever follows them.
pub proof fn lemma_table_stays_none(lines: Seq<Seq<char>>, more: Seq<Seq<char>>)
    requires
        table_of(lines) is None,
    ensures
        table_of(lines + more) is None,
    decreases more.len(),
{
    if more.len() == 0 {
        assert(lines + more =~= lines);
    } else {
        lemma_table_stays_none(lines, more.drop_last());
        assert((lines + more).drop_last() =~= lines + more.drop_last());
    }
}

/// `std::string::String::push` appends the character to the end of the string.
pub assume_specification[ String::push ](text: &mut String, c: char)
    ensures
        final(text)@ == old(text)@.push(c),
;

/// Where `c` first stands among the characters from `lo` up to `hi`, or
/// `hi` where it does not.
fn find(chars: &Vec<char>, lo: usize, hi: usize, c: char) -> (at: usize)
    requires
        lo <= hi <= chars.len(),
    ensures
        lo <= at <= hi,
        is_first(chars@.subrange(lo as int, hi as int), c, at - lo),
{
    let mut at: usize = lo;
    while at < hi && chars[at] != c
        invariant
            lo <= at <= hi <= chars.len(),
            forall|k: int| lo <= k < at ==> chars[k] != c,
        decreases hi - at,
    {
        at = at + 1;
    }
    at
}

/// The characters from `lo` up to `hi` as a string.
fn string_of(chars: &Vec<char>, lo: usize, hi: usize) -> (text: String)
    requires
        lo <= hi <= chars.len(),
    ensures
        text@ == chars@.subrange(lo as int, hi as int),
{
    let mut text = String::new();
    let mut at: usize = lo;
    while at < hi
        invariant
            lo <= at <= hi <= chars.len(),
            text@ == chars@.subrange(lo as int, at as int),
        decreases hi - at,
    {
        text.push(chars[at]);
        at = at + 1;
        assert(text@ =~= chars@.subrange(lo as int, at as int));
    }
    text
}

/// Reads the entry that the line from `lo` up to `hi` gives.
fn read_entry(chars: &Vec<char>, lo: usize, hi: usize) -> (entry: Option<(u16, String)>)
    requires
        lo <= hi <= chars.len(),
    ensures
        match entry_of(chars@.subrange(lo as int, hi as int)) {
            Some((port, name)) => entry is Some && entry.unwrap().0 == port && entry.unwrap().1@
                == name,
            None => entry is None,
        },
{
    let ghost line = chars@.subrange(lo as int, hi as int);
    let comma: usize = find(chars, lo, hi, ',');
    proof {
        lemma_first_at(line, ',', comma - lo);
    }
    if comma >= hi {
        return None;
    }
    let ghost rest = line.subrange(comma - lo + 1, line.len() as int);
    assert(rest =~= chars@.subrange(comma + 1, hi as int));
    let end: usize = find(chars, comma + 1, hi, ',');
    proof {
        lemma_first_at(rest, ',', end - comma - 1);
        assert(rest.subrange(0, end - comma - 1) =~= chars@.subrange(comma + 1, end as int));
        assert(line.subrange(0, comma - lo) =~= chars@.subrange(lo as int, comma as int));
    }
    match read_port(chars, comma + 1, end) {
        Some(port) => Some((port, string_of(chars, lo, comma))),
        None => None,
    }
}

/// Service names by port.
pub struct ServiceTable {
    names: HashMap<u16, String>,
}

impl View for ServiceTable {
    type V = Map<u16, Seq<char>>;

    closed spec fn view(&self) -> Map<u16, Seq<char>> {
        self.names@.map_values(|name: String| name@)
    }
}

impl ServiceTable {
    /// A table without services.
    pub fn new() -> (table: Self)
        ensures
            table@ == Map::<u16, Seq<char>>::empty(),
    {
        let table = ServiceTable { names: HashMap::new() };
        assert(table@ =~= Map::<u16, Seq<char>>::empty());
        table
    }

    /// Names the service on `port`, in place of what the table had for it.
    pub fn insert(&mut self, port: u16, name: String)
        ensures
            final(self)@ == old(self)@.insert(port, name@),
    {
        broadcast use vstd::std_specs::hash::group_hash_axioms;

        self.names.insert(port, name);
        assert(self@ =~= old(self)@.insert(port, name@));
    }

    /// The name of the service on `port`, if the table has one.
    pub fn get(&self, port: u16) -> (name: Option<&String>)
        ensures
            match name {
                Some(text) => self@.contains_key(port) && text@ == self@[port],
                None => !self@.contains_key(port),
            },
    {
        broadcast use vstd::std_specs::hash::group_hash_axioms;

        self.names.get(&port)
    }

    /// The name to show for the service on `port`: the one the table has,
    /// or `unknown`.
    pub fn name_of(&self, port: u16) -> (name: String)
        ensures
            name@ == if self@.contains_key(port) {
                self@[port]
            } else {
                "unknown"@
            },
    {
        match self.get(port) {
            Some(text) => text.clone(),
            None => "unknown".to_owned(),
        }
    }

    /// Reads a table from text: a header line, then one service on each
    /// line. Gives nothing if one of those lines gives no entry.
    pub fn from_csv(text: &str) -> (table: Option<ServiceTable>)
        ensures
            match services_of(text@) {
                Some(names) => table is Some && table.unwrap()@ == names,
                None => table is None,
            },
    {
        let chars = chars_of(text);
        let mut table = ServiceTable::new();
        let mut at: usize = 0;
        let mut header: bool = true;
        let ghost mut done: Seq<Seq<char>> = Seq::empty();
        proof {
            assert(chars@.subrange(0, chars.len() as int) =~= chars@);
            assert(done + lines_of(chars@) =~= lines_of(chars@));
        }
        while at < chars.len()
            invariant
                at <= chars.len(),
                chars@ == text@,
                lines_of(chars@) == done + lines_of(chars@.subrange(at as int, chars.len() as int)),
                header <==> done.len() == 0,
                !header ==> table_of(done.subrange(1, done.len() as int)) == Some(table@),
                header ==> table@ == Map::<u16, Seq<char>>::empty(),
            decreases chars.len() - at,
        {
            let ghost rest = chars@.subrange(at as int, chars.len() as int);
            let feed: usize = find(&chars, at, chars.len(), '\n');
            proof {
                lemma_first_at(rest, '\n', feed - at);
            }
            let end: usize = if feed < chars.len() && feed > at && chars[feed - 1] == '\r' {
                feed - 1
            } else {
                feed
            };
            let next: usize = if feed < chars.len() {
                feed + 1
            } else {
                feed
            };
            let ghost line = chars@.subrange(at as int, end as int);
            proof {
                if feed < chars.len() {
                    assert(rest.subrange(0, feed - at) =~= chars@.subrange(at as int, feed as int));
                    assert(line =~= without_return(rest.subrange(0, feed - at)));
                    assert(rest.subrange(feed - at + 1, rest.len() as int) =~= chars@.subrange(
                        next as int,
                        chars.len() as int,
                    ));
                } else {
                    assert(line =~= rest);
                    assert(lines_of(chars@.subrange(next as int, chars.len() as int))
                        =~= Seq::<Seq<char>>::empty());
                }
                assert(lines_of(rest) =~= seq![line] + lines_of(
                    chars@.subrange(next as int, chars.len() as int),
                ));
                assert(done + lines_of(rest) =~= done.push(line) + lines_of(
                    chars@.subrange(next as int, chars.len() as int),
                ));
            }
            if header {
                header = false;
                proof {
                    done = done.push(line);
                    assert(done.subrange(1, done.len() as int) =~= Seq::<Seq<char>>::empty());
                }
            } else {
                let ghost before = done.subrange(1, done.len() as int);
                proof {
                    done = done.push(line);
                    assert(done.subrange(1, done.len() as int) =~= before.push(line));
                    assert(before.push(line).drop_last() =~= before);
                }
                match read_entry(&chars, at, end) {
                    Some((port, name)) => {
                        table.insert(port, name);
                    },
                    None => {
                        proof {
                            let later = lines_of(chars@.subrange(next as int, chars.len() as int));
                            let all = lines_of(chars@);
                            assert(all == done + later);
                            assert(all.subrange(1, all.len() as int) =~= done.subrange(
                                1,
                                done.len() as int,
                            ) + later);
                            lemma_table_stays_none(done.subrange(1, done.len() as int), later);
                        }
                        return None;
                    },
                }
            }
            at = next;
        }
        proof {
            assert(lines_of(chars@.subrange(at as int, chars.len() as int)) =~= Seq::<
                Seq<char>,
            >::empty());
            assert(lines_of(chars@) =~= done);
        }
        Some(table)
    }
}

} // verus!
