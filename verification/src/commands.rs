//! The typed command layer: tokenized commands become store operations, and
//! every outcome is returned as a structured reply for the caller to render.
//!
//! The surrounding program reads lines, splits them into whitespace-separated
//! tokens and hands them here; `command_outcome` states exactly which store
//! transition and reply each token sequence produces.

use vstd::prelude::*;
use vstd::relations::sorted_by;

use crate::parse::digits_val;
use crate::parse::parse_u32;
use crate::parse::parse_u8;
use crate::parse::parsed_u32;
use crate::parse::unsigned_body;
use crate::parse::valid_u32_str;
use crate::parse::valid_u8_str;
use crate::query::order_leq_fn;
use crate::query::order_students;
use crate::query::SortDirection;
use crate::query::SortField;
use crate::record::Student;
use crate::record::StudentV;
use crate::store::contains_id;
use crate::store::index_of_id;
use crate::store::with_name;
use crate::store::StudentStore;
use crate::text::str_eq;

verus! {

/// Which argument of a command was malformed.
#[derive(Clone, Copy, Debug, PartialEq, Eq, Structural)]
pub enum InvalidKind {
    Id,
    Age,
    Field,
    Direction,
}

/// Which usage line a malformed command calls for.
#[derive(Clone, Copy, Debug, PartialEq, Eq, Structural)]
pub enum UsageKind {
    Add,
    List,
    Remove,
    Modify,
    Search,
    SearchId,
    SearchName,
    Order,
}

/// The structured outcome of one command, for the caller to render.
#[derive(Debug)]
pub enum Reply {
    /// An empty input line: nothing to do, nothing to print.
    NoInput,
    /// A record was created under this identifier.
    Added(u32),
    /// The record with this identifier was deleted.
    Removed(u32),
    /// The record with this identifier was overwritten.
    Modified(u32),
    /// No record carries this identifier.
    NotFound(u32),
    /// Records to display, possibly none.
    Rows(Vec<Student>),
    /// A token that does not parse as what its position requires.
    Invalid(InvalidKind, String),
    /// A command with the wrong number of arguments.
    Usage(UsageKind),
    /// The help text was requested.
    Help,
    /// The session is over.
    Bye,
    /// An unrecognized command word.
    Unknown,
}

/// Which sort field a token names.
pub open spec fn sort_field_of(s: Seq<char>) -> Option<SortField> {
    if s == "id"@ {
        Some(SortField::Id)
    } else if s == "name"@ {
        Some(SortField::Name)
    } else if s == "age"@ {
        Some(SortField::Age)
    } else if s == "class"@ {
        Some(SortField::Class)
    } else {
        None
    }
}

/// Which sort direction a token names.
pub open spec fn sort_direction_of(s: Seq<char>) -> Option<SortDirection> {
    if s == "asc"@ {
        Some(SortDirection::Asc)
    } else if s == "desc"@ {
        Some(SortDirection::Desc)
    } else {
        None
    }
}

/// The store is outwardly the same: records, indices and allocator all kept.
pub open spec fn st_unchanged(pre: StudentStore, post: StudentStore) -> bool {
    &&& post.records() == pre.records()
    &&& post.buckets() == pre.buckets()
    &&& post.ids@ == pre.ids@
    &&& post.next_id == pre.next_id
}

/// What each token sequence does to the store and replies, exactly.
pub open spec fn command_outcome(
    ts: Seq<Seq<char>>,
    pre: StudentStore,
    post: StudentStore,
    keep: bool,
    reply: Reply,
) -> bool {
    if ts.len() == 0 {
        st_unchanged(pre, post) && keep && reply is NoInput
    } else if ts[0] == "add"@ {
        &&& keep
        &&& if ts.len() != 4 {
            st_unchanged(pre, post) && reply == Reply::Usage(UsageKind::Add)
        } else if valid_u8_str(ts[2]) {
            &&& post.records() == pre.records().push(
                (StudentV {
                    id: pre.next_id,
                    name: ts[1],
                    age: digits_val(unsigned_body(ts[2])) as u8,
                    class_name: ts[3],
                }),
            )
            &&& post.next_id == pre.next_id + 1
            &&& reply == Reply::Added(pre.next_id)
        } else {
            st_unchanged(pre, post) && (reply matches Reply::Invalid(k, t) && k
                == InvalidKind::Age && t@ == ts[2])
        }
    } else if ts[0] == "list"@ {
        &&& keep
        &&& st_unchanged(pre, post)
        &&& if ts.len() != 1 {
            reply == Reply::Usage(UsageKind::List)
        } else {
            reply matches Reply::Rows(v) && v.deep_view() == pre.records()
        }
    } else if ts[0] == "remove"@ {
        &&& keep
        &&& if ts.len() != 2 {
            st_unchanged(pre, post) && reply == Reply::Usage(UsageKind::Remove)
        } else if !valid_u32_str(ts[1]) {
            st_unchanged(pre, post) && (reply matches Reply::Invalid(k, t) && k == InvalidKind::Id
                && t@ == ts[1])
        } else {
            let id = parsed_u32(ts[1]) as u32;
            if contains_id(pre.records(), id) {
                &&& post.records() == pre.records().remove(index_of_id(pre.records(), id))
                &&& post.next_id == pre.next_id
                &&& reply == Reply::Removed(id)
            } else {
                st_unchanged(pre, post) && reply == Reply::NotFound(id)
            }
        }
    } else if ts[0] == "mod"@ {
        &&& keep
        &&& if ts.len() != 5 {
            st_unchanged(pre, post) && reply == Reply::Usage(UsageKind::Modify)
        } else if !valid_u32_str(ts[1]) {
            st_unchanged(pre, post) && (reply matches Reply::Invalid(k, t) && k == InvalidKind::Id
                && t@ == ts[1])
        } else if !valid_u8_str(ts[3]) {
            st_unchanged(pre, post) && (reply matches Reply::Invalid(k, t) && k == InvalidKind::Age
                && t@ == ts[3])
        } else {
            let id = parsed_u32(ts[1]) as u32;
            if contains_id(pre.records(), id) {
                &&& post.records() == pre.records().update(
                    index_of_id(pre.records(), id),
                    (StudentV {
                        id,
                        name: ts[2],
                        age: digits_val(unsigned_body(ts[3])) as u8,
                        class_name: ts[4],
                    }),
                )
                &&& post.next_id == pre.next_id
                &&& reply == Reply::Modified(id)
            } else {
                st_unchanged(pre, post) && reply == Reply::NotFound(id)
            }
        }
    } else if ts[0] == "search"@ {
        &&& keep
        &&& st_unchanged(pre, post)
        &&& if ts.len() < 3 {
            reply == Reply::Usage(UsageKind::Search)
        } else if ts[1] == "id"@ {
            if ts.len() != 3 {
                reply == Reply::Usage(UsageKind::SearchId)
            } else if !valid_u32_str(ts[2]) {
                reply matches Reply::Invalid(k, t) && k == InvalidKind::Id && t@ == ts[2]
            } else {
                let id = parsed_u32(ts[2]) as u32;
                reply matches Reply::Rows(v) && v.deep_view() == if contains_id(
                    pre.records(), id,
                ) {
                    seq![pre.records()[index_of_id(pre.records(), id)]]
                } else {
                    Seq::<StudentV>::empty()
                }
            }
        } else if ts[1] == "name"@ {
            if ts.len() != 3 {
                reply == Reply::Usage(UsageKind::SearchName)
            } else {
                reply matches Reply::Rows(v) && v.deep_view() == with_name(pre.records(), ts[2])
            }
        } else {
            reply == Reply::Usage(UsageKind::Search)
        }
    } else if ts[0] == "order"@ {
        &&& keep
        &&& st_unchanged(pre, post)
        &&& if ts.len() != 3 {
            reply == Reply::Usage(UsageKind::Order)
        } else if sort_field_of(ts[1]) is None {
            reply matches Reply::Invalid(k, t) && k == InvalidKind::Field && t@ == ts[1]
        } else if sort_direction_of(ts[2]) is None {
            reply matches Reply::Invalid(k, t) && k == InvalidKind::Direction && t@ == ts[2]
        } else {
            &&& sort_field_of(ts[1]) matches Some(f)
            &&& sort_direction_of(ts[2]) matches Some(d)
            &&& (reply matches Reply::Rows(v) && sorted_by(v.deep_view(), order_leq_fn(f, d))
                && v.deep_view().to_multiset() == pre.records().to_multiset())
        }
    } else if ts[0] == "help"@ {
        keep && st_unchanged(pre, post) && reply == Reply::Help
    } else if ts[0] == "quit"@ || ts[0] == "exit"@ {
        !keep && st_unchanged(pre, post) && reply == Reply::Bye
    } else {
        keep && st_unchanged(pre, post) && reply == Reply::Unknown
    }
}

/// Parse an identifier argument.
pub fn parse_id(raw: &str) -> (r: Option<u32>)
    ensures
        valid_u32_str(raw@) ==> r == Some(parsed_u32(raw@) as u32),
        !valid_u32_str(raw@) ==> r is None,
{
    parse_u32(raw)
}

/// Parse an age argument.
pub fn parse_age(raw: &str) -> (r: Option<u8>)
    ensures
        valid_u8_str(raw@) ==> r == Some(digits_val(unsigned_body(raw@)) as u8),
        !valid_u8_str(raw@) ==> r is None,
{
    parse_u8(raw)
}

/// Recognize a sort field token.
pub fn parse_sort_field(raw: &str) -> (r: Option<SortField>)
    ensures
        r == sort_field_of(raw@),
{
    if str_eq(raw, "id") {
        Some(SortField::Id)
    } else if str_eq(raw, "name") {
        Some(SortField::Name)
    } else if str_eq(raw, "age") {
        Some(SortField::Age)
    } else if str_eq(raw, "class") {
        Some(SortField::Class)
    } else {
        None
    }
}

/// Recognize a sort direction token.
pub fn parse_sort_direction(raw: &str) -> (r: Option<SortDirection>)
    ensures
        r == sort_direction_of(raw@),
{
    if str_eq(raw, "asc") {
        Some(SortDirection::Asc)
    } else if str_eq(raw, "desc") {
        Some(SortDirection::Desc)
    } else {
        None
    }
}

/// Run one tokenized command against the store. The first component of the
/// result says whether the session goes on; the second is the reply to
/// render. `command_outcome` pins down both, and the store transition, for
/// every token sequence.
pub fn handle_command(tokens: &Vec<String>, store: &mut StudentStore) -> (r: (bool, Reply))
    requires
        old(store).wf(),
        old(store).next_id < u32::MAX,
    ensures
        final(store).wf(),
        final(store).next_id >= old(store).next_id,
        command_outcome(tokens.deep_view(), *old(store), *final(store), r.0, r.1),
{
    let ghost ts = tokens.deep_view();
    let n = tokens.len();
    if n == 0 {
        return (true, Reply::NoInput);
    }
    proof {
        assert(ts[0] == tokens@[0]@);
    }
    let c0 = tokens[0].as_str();
    if str_eq(c0, "add") {
        if n != 4 {
            return (true, Reply::Usage(UsageKind::Add));
        }
        proof {
            assert(ts[1] == tokens@[1]@ && ts[2] == tokens@[2]@ && ts[3] == tokens@[3]@);
        }
        match parse_age(tokens[2].as_str()) {
            Some(age) => {
                let id = store.add(tokens[1].as_str(), age, tokens[3].as_str());
                (true, Reply::Added(id))
            },
            None => (true, Reply::Invalid(InvalidKind::Age, tokens[2].clone())),
        }
    } else if str_eq(c0, "list") {
        if n != 1 {
            return (true, Reply::Usage(UsageKind::List));
        }
        let rows = store.list_by_id();
        (true, Reply::Rows(rows))
    } else if str_eq(c0, "remove") {
        if n != 2 {
            return (true, Reply::Usage(UsageKind::Remove));
        }
        proof {
            assert(ts[1] == tokens@[1]@);
        }
        match parse_id(tokens[1].as_str()) {
            Some(id) => if store.remove(id) {
                (true, Reply::Removed(id))
            } else {
                (true, Reply::NotFound(id))
            },
            None => (true, Reply::Invalid(InvalidKind::Id, tokens[1].clone())),
        }
    } else if str_eq(c0, "mod") {
        if n != 5 {
            return (true, Reply::Usage(UsageKind::Modify));
        }
        proof {
            assert(ts[1] == tokens@[1]@ && ts[2] == tokens@[2]@ && ts[3] == tokens@[3]@ && ts[4]
                == tokens@[4]@);
        }
        let id = match parse_id(tokens[1].as_str()) {
            Some(v) => v,
            None => {
                return (true, Reply::Invalid(InvalidKind::Id, tokens[1].clone()));
            },
        };
        let age = match parse_age(tokens[3].as_str()) {
            Some(v) => v,
            None => {
                return (true, Reply::Invalid(InvalidKind::Age, tokens[3].clone()));
            },
        };
        if store.modify(id, tokens[2].as_str(), age, tokens[4].as_str()) {
            (true, Reply::Modified(id))
        } else {
            (true, Reply::NotFound(id))
        }
    } else if str_eq(c0, "search") {
        if n < 3 {
            return (true, Reply::Usage(UsageKind::Search));
        }
        proof {
            assert(ts[1] == tokens@[1]@ && ts[2] == tokens@[2]@);
        }
        let c1 = tokens[1].as_str();
        if str_eq(c1, "id") {
            if n != 3 {
                return (true, Reply::Usage(UsageKind::SearchId));
            }
            match parse_id(tokens[2].as_str()) {
                Some(id) => {
                    let mut rows: Vec<Student> = Vec::new();
                    let found = store.get_by_id(id);
                    match found {
                        Some(s) => {
                            rows.push(s.clone());
                            proof {
                                assert(rows.deep_view() =~= seq![
                                    store.records()[index_of_id(store.records(), id)],
                                ]);
                            }
                        },
                        None => {
                            proof {
                                assert(rows.deep_view() =~= Seq::<StudentV>::empty());
                            }
                        },
                    }
                    (true, Reply::Rows(rows))
                },
                None => (true, Reply::Invalid(InvalidKind::Id, tokens[2].clone())),
            }
        } else if str_eq(c1, "name") {
            if n != 3 {
                return (true, Reply::Usage(UsageKind::SearchName));
            }
            let rows = store.search_by_name_exact(tokens[2].as_str());
            (true, Reply::Rows(rows))
        } else {
            (true, Reply::Usage(UsageKind::Search))
        }
    } else if str_eq(c0, "order") {
        if n != 3 {
            return (true, Reply::Usage(UsageKind::Order));
        }
        proof {
            assert(ts[1] == tokens@[1]@ && ts[2] == tokens@[2]@);
        }
        let field = match parse_sort_field(tokens[1].as_str()) {
            Some(v) => v,
            None => {
                return (true, Reply::Invalid(InvalidKind::Field, tokens[1].clone()));
            },
        };
        let direction = match parse_sort_direction(tokens[2].as_str()) {
            Some(v) => v,
            None => {
                return (true, Reply::Invalid(InvalidKind::Direction, tokens[2].clone()));
            },
        };
        let rows = order_students(store, field, direction);
        (true, Reply::Rows(rows))
    } else if str_eq(c0, "help") {
        (true, Reply::Help)
    } else if str_eq(c0, "quit") {
        (false, Reply::Bye)
    } else if str_eq(c0, "exit") {
        (false, Reply::Bye)
    } else {
        (true, Reply::Unknown)
    }
}

} // verus!
