//! Arguments of a tool call, and the refusals they lead to.

use vstd::prelude::*;
use crate::num::Num;
use crate::project::MissingArgument;
use crate::text::{join4, same};

verus! {

/// A number of an argument.
#[derive(Debug, Clone, Copy)]
pub struct JsonNumber {
    /// The number as binary64.
    pub value: Num,
    /// The number itself, where it is a non-negative integer.
    pub unsigned: Option<u64>,
}

/// A value of an argument.
#[derive(Debug)]
pub enum Json {
    Null,
    Bool(bool),
    Number(JsonNumber),
    Text(String),
    Array(Vec<Json>),
    Object(Vec<(String, Json)>),
}

/// The member of that name among `members`, from index `i` on.
pub open spec fn member_from(members: Seq<(String, Json)>, key: Seq<char>, i: int) -> Option<Json>
    decreases members.len() - i,
{
    if i >= members.len() {
        None
    } else if members[i].0@ == key {
        Some(members[i].1)
    } else {
        member_from(members, key, i + 1)
    }
}

/// The member of that name; none of what is not an object.
pub open spec fn member(args: Json, key: Seq<char>) -> Option<Json> {
    match args {
        Json::Object(members) => member_from(members@, key, 0),
        _ => None,
    }
}

/// The text of an optional value.
pub open spec fn text_arg(v: Option<Json>) -> Option<Seq<char>> {
    match v {
        Some(Json::Text(s)) => Some(s@),
        _ => None,
    }
}

/// The number of an optional value.
pub open spec fn number_arg(v: Option<Json>) -> Option<JsonNumber> {
    match v {
        Some(Json::Number(n)) => Some(n),
        _ => None,
    }
}

impl Json {
    /// The member of that name; none of what is not an object.
    pub fn get(&self, key: &str) -> (r: Option<&Json>)
        ensures
            match r {
                Some(v) => member(*self, key@) == Some(*v),
                None => member(*self, key@) is None,
            },
    {
        let members = match self {
            Json::Object(members) => members,
            _ => {
                return None;
            },
        };
        let mut i: usize = 0;
        while i < members.len()
            invariant
                i <= members@.len(),
                member(*self, key@) == member_from(members@, key@, i as int),
            decreases members@.len() - i,
        {
            if same(members[i].0.as_str(), key) {
                return Some(&members[i].1);
            }
            i += 1;
        }
        None
    }

    /// The text, of a text.
    pub fn as_str(&self) -> (r: Option<&str>)
        ensures
            match r {
                Some(s) => text_arg(Some(*self)) == Some(s@),
                None => text_arg(Some(*self)) is None,
            },
    {
        match self {
            Json::Text(s) => Some(s.as_str()),
            _ => None,
        }
    }
}

/// What kind of failure a refusal reports.
#[derive(Debug)]
pub enum ErrorKind {
    InvalidArgument { field: String, reason: String },
    HandlerError { reason: String },
}

/// A refusal: its kind, where it has one, and the message for people.
#[derive(Debug)]
pub struct ToolError {
    pub kind: Option<ErrorKind>,
    pub message: String,
}

impl ToolError {
    /// A refusal without a kind.
    pub fn plain(message: String) -> (r: ToolError)
        ensures
            r.kind is None,
            r.message == message,
    {
        ToolError { kind: None, message }
    }

    /// The name of the kind.
    pub fn kind_name(&self) -> (r: Option<&'static str>)
        ensures
            match r {
                Some(s) => s@ == match self.kind->0 {
                    ErrorKind::InvalidArgument { .. } => "invalid_argument"@,
                    ErrorKind::HandlerError { .. } => "handler_error"@,
                } && self.kind is Some,
                None => self.kind is None,
            },
    {
        match &self.kind {
            Some(ErrorKind::InvalidArgument { .. }) => Some("invalid_argument"),
            Some(ErrorKind::HandlerError { .. }) => Some("handler_error"),
            None => None,
        }
    }
}

/// The refusal of an argument names the field and the reason, in its kind and in its message.
pub open spec fn refuses(e: ToolError, field: Seq<char>, reason: Seq<char>) -> bool {
    &&& e.kind matches Some(ErrorKind::InvalidArgument { field: f, reason: r })
    &&& f@ == field
    &&& r@ == reason
    &&& e.message@ == "Argument '"@ + field + "' is invalid: "@ + reason
}

/// The refusal of an argument.
pub fn invalid_arg(field: &str, reason: &str) -> (r: ToolError)
    ensures
        refuses(r, field@, reason@),
{
    ToolError {
        kind: Some(
            ErrorKind::InvalidArgument { field: field.to_owned(), reason: reason.to_owned() },
        ),
        message: join4("Argument '", field, "' is invalid: ", reason),
    }
}

/// A text that must be there.
pub fn require_str<'a>(args: &'a Json, key: &str) -> (r: Result<&'a str, ToolError>)
    ensures
        match r {
            Ok(s) => text_arg(member(*args, key@)) == Some(s@),
            Err(e) => text_arg(member(*args, key@)) is None && refuses(
                e,
                key@,
                "missing or not a string"@,
            ),
        },
{
    match opt_str(args, key) {
        Some(s) => Ok(s),
        None => Err(invalid_arg(key, "missing or not a string")),
    }
}

/// A text that may be there.
pub fn opt_str<'a>(args: &'a Json, key: &str) -> (r: Option<&'a str>)
    ensures
        match r {
            Some(s) => text_arg(member(*args, key@)) == Some(s@),
            None => text_arg(member(*args, key@)) is None,
        },
{
    match args.get(key) {
        Some(v) => v.as_str(),
        None => None,
    }
}

/// A number that must be there.
pub fn require_f64(args: &Json, key: &str) -> (r: Result<Num, ToolError>)
    ensures
        match r {
            Ok(n) => number_arg(member(*args, key@)) matches Some(m) && n == m.value,
            Err(e) => number_arg(member(*args, key@)) is None && refuses(
                e,
                key@,
                "missing or not a number"@,
            ),
        },
{
    match opt_f64(args, key) {
        Some(n) => Ok(n),
        None => Err(invalid_arg(key, "missing or not a number")),
    }
}

/// A number that may be there.
pub fn opt_f64(args: &Json, key: &str) -> (r: Option<Num>)
    ensures
        match r {
            Some(n) => number_arg(member(*args, key@)) matches Some(m) && n == m.value,
            None => number_arg(member(*args, key@)) is None,
        },
{
    match args.get(key) {
        Some(Json::Number(n)) => Some(n.value),
        _ => None,
    }
}

/// A list that must be there. An empty list asks for nothing to be done; a
/// missing one does not say what to do, and is refused.
pub fn require_array<'a>(args: &'a Json, key: &str) -> (r: Result<&'a Vec<Json>, ToolError>)
    ensures
        match r {
            Ok(v) => member(*args, key@) == Some(Json::Array(*v)),
            Err(e) => !(member(*args, key@) matches Some(Json::Array(_))) && refuses(
                e,
                key@,
                "missing or not an array"@,
            ),
        },
{
    match args.get(key) {
        Some(Json::Array(v)) => Ok(v),
        _ => Err(invalid_arg(key, "missing or not an array")),
    }
}

/// A non-negative integer that must be there.
pub fn require_u64(args: &Json, key: &str) -> (r: Result<u64, ToolError>)
    ensures
        match r {
            Ok(n) => number_arg(member(*args, key@)) matches Some(m) && m.unsigned == Some(n),
            Err(e) => !(number_arg(member(*args, key@)) matches Some(m) && m.unsigned is Some)
                && refuses(e, key@, "missing or not a non-negative integer"@),
        },
{
    if let Some(Json::Number(n)) = args.get(key) {
        if let Some(u) = n.unsigned {
            return Ok(u);
        }
    }
    Err(invalid_arg(key, "missing or not a non-negative integer"))
}

/// A path that must be there.
pub fn get_path<'a>(args: &'a Json, key: &str) -> (r: Result<&'a str, MissingArgument>)
    ensures
        match r {
            Ok(s) => text_arg(member(*args, key@)) == Some(s@),
            Err(e) => text_arg(member(*args, key@)) is None && e.field@ == key@,
        },
{
    match opt_str(args, key) {
        Some(s) => Ok(s),
        None => Err(MissingArgument { field: key.to_owned() }),
    }
}

/// A switch that may be there, off when it is not.
pub fn flag(args: &Json, key: &str) -> (r: bool)
    ensures
        r == (member(*args, key@) == Some(Json::Bool(true))),
{
    match args.get(key) {
        Some(Json::Bool(b)) => *b,
        _ => false,
    }
}

/// The texts among the first `n` of `items`, in order.
pub open spec fn texts_among(items: Seq<Json>, n: int) -> Seq<Seq<char>>
    decreases n,
{
    if n <= 0 {
        Seq::empty()
    } else {
        match text_arg(Some(items[n - 1])) {
            Some(s) => texts_among(items, n - 1).push(s),
            None => texts_among(items, n - 1),
        }
    }
}

/// The texts of a list, in order; what is not a text is passed over.
pub fn string_items(items: &Vec<Json>) -> (r: Vec<String>)
    ensures
        crate::text::texts(r@) == texts_among(items@, items@.len() as int),
{
    let mut out: Vec<String> = Vec::new();
    let mut i: usize = 0;
    assert(crate::text::texts(out@) =~= texts_among(items@, 0));
    while i < items.len()
        invariant
            i <= items@.len(),
            crate::text::texts(out@) == texts_among(items@, i as int),
        decreases items@.len() - i,
    {
        let ghost before = out@;
        if let Some(s) = items[i].as_str() {
            out.push(s.to_owned());
            assert(crate::text::texts(out@) =~= crate::text::texts(before).push(s@));
        }
        i += 1;
    }
    out
}

} // verus!
