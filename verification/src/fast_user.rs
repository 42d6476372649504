//! An example record with a schema-specialised JSON writer and reader.

use vstd::prelude::*;
use vstd::string::*;
use vstd::utf8::encode_utf8;
use crate::bytes::append_all;
use crate::deser::Deserialize;
use crate::error::{text, Error, ErrorView};
use crate::parse::{
    expect_tag_spec, lemma_skip_value_advances, next_step_spec, skip_value_spec, string_value, tag_at,
    Parser,
};
use crate::scanner::{TOKEN_COLON, TOKEN_LBRACE, TOKEN_RBRACE};
use crate::serialize::{bool_text, int_text, json_string, Serialize};
use crate::view::KView;

verus! {

/// An example record bound to JSON by a fixed schema.
#[derive(Debug)]
pub struct FastUser {
    pub id: u64,
    pub name: String,
    pub active: bool,
}

impl Default for FastUser {
    fn default() -> (u: Self)
        ensures
            u.id == 0,
            u.name@ == Seq::<char>::empty(),
            !u.active,
    {
        FastUser { id: 0, name: String::new(), active: false }
    }
}

/// The bytes `{"id":`.
pub open spec fn id_prefix() -> Seq<u8> {
    seq![0x7Bu8, 0x22u8, 0x69u8, 0x64u8, 0x22u8, 0x3Au8]
}

/// The bytes `,"name":`.
pub open spec fn name_prefix() -> Seq<u8> {
    seq![0x2Cu8, 0x22u8, 0x6Eu8, 0x61u8, 0x6Du8, 0x65u8, 0x22u8, 0x3Au8]
}

/// The bytes `,"active":`.
pub open spec fn active_prefix() -> Seq<u8> {
    seq![0x2Cu8, 0x22u8, 0x61u8, 0x63u8, 0x74u8, 0x69u8, 0x76u8, 0x65u8, 0x22u8, 0x3Au8]
}

/// The JSON text of a user: its fields in declaration order.
pub open spec fn user_json(id: int, name: Seq<char>, active: bool) -> Seq<u8> {
    id_prefix() + int_text(id) + name_prefix() + json_string(encode_utf8(name)) + active_prefix()
        + bool_text(active) + seq![0x7Du8]
}

impl FastUser {
    /// The version of the schema binding.
    pub fn kowito_json_schema_version() -> (r: &'static str)
        ensures
            r@ == "1.0.0-turbo"@,
    {
        "1.0.0-turbo"
    }

    /// A user built from a view; every field takes its default.
    pub fn from_kview<'a>(view: &KView<'a>) -> (u: Self)
        ensures
            u.id == 0,
            u.name@ == Seq::<char>::empty(),
            !u.active,
    {
        FastUser::default()
    }

    /// Appends the JSON text of this user to `buf`.
    pub fn to_json_bytes(&self, buf: &mut Vec<u8>)
        ensures
            final(buf)@ == old(buf)@ + user_json(self.id as int, self.name@, self.active),
    {
        let id_key: [u8; 6] = [0x7B, 0x22, 0x69, 0x64, 0x22, 0x3A];
        let name_key: [u8; 8] = [0x2C, 0x22, 0x6E, 0x61, 0x6D, 0x65, 0x22, 0x3A];
        let active_key: [u8; 10] = [0x2C, 0x22, 0x61, 0x63, 0x74, 0x69, 0x76, 0x65, 0x22, 0x3A];
        proof {
            assert(id_key@ =~= id_prefix());
            assert(name_key@ =~= name_prefix());
            assert(active_key@ =~= active_prefix());
        }
        append_all(buf, id_key.as_slice());
        self.id.serialize(buf);
        append_all(buf, name_key.as_slice());
        self.name.serialize(buf);
        append_all(buf, active_key.as_slice());
        self.active.serialize(buf);
        buf.push(0x7D);
        proof {
            assert(final(buf)@ =~= old(buf)@ + user_json(self.id as int, self.name@, self.active));
        }
    }
}

impl Serialize for FastUser {
    open spec fn json_bytes(&self) -> Seq<u8> {
        user_json(self.id as int, self.name@, self.active)
    }

    fn serialize(&self, buf: &mut Vec<u8>) {
        self.to_json_bytes(buf);
    }
}

/// The fields of a user as read so far: id, name, active.
pub type UserFields = (int, Seq<char>, bool);

/// The outcome of reading the value of the member `key` at entry `pos`
/// into `acc`: `id`, `name` and `active` replace their field; any other
/// member is skipped.
pub open spec fn user_field(src: Seq<u8>, tape: Seq<u32>, pos: int, key: Seq<char>, acc: UserFields) -> (Result<UserFields, ErrorView>, int) {
    if key == "id"@ {
        let (r, p) = <u64 as Deserialize>::parse_spec(src, tape, pos);
        (
            match r {
                Ok(v) => Ok((v, acc.1, acc.2)),
                Err(e) => Err(e),
            },
            p,
        )
    } else if key == "name"@ {
        let (r, p) = <String as Deserialize>::parse_spec(src, tape, pos);
        (
            match r {
                Ok(v) => Ok((acc.0, v, acc.2)),
                Err(e) => Err(e),
            },
            p,
        )
    } else if key == "active"@ {
        let (r, p) = <bool as Deserialize>::parse_spec(src, tape, pos);
        (
            match r {
                Ok(v) => Ok((acc.0, acc.1, v)),
                Err(e) => Err(e),
            },
            p,
        )
    } else {
        let (r, p) = skip_value_spec(tape, pos);
        (
            match r {
                Ok(_) => Ok(acc),
                Err(e) => Err(e),
            },
            p,
        )
    }
}

/// The outcome of reading the members of a non-empty object from entry
/// `pos` into `acc`, in order (a later member replaces an earlier one of
/// the same key). (Each step moves forward along the tape; the last
/// branch, where it would not, cannot happen.)
pub open spec fn user_members(src: Seq<u8>, tape: Seq<u32>, pos: int, acc: UserFields) -> (Result<UserFields, ErrorView>, int)
    decreases tape.len() - pos,
{
    let (k, p1) = string_value(src, tape, pos);
    match k {
        Err(e) => (Err(e), p1),
        Ok(key) => {
            let (c, p2) = expect_tag_spec(src, tape, p1, TOKEN_COLON, "':'"@);
            match c {
                Err(e) => (Err(e), p2),
                Ok(_) => {
                    let (f, p3) = user_field(src, tape, p2, key, acc);
                    match f {
                        Err(e) => (Err(e), p3),
                        Ok(acc2) => {
                            let (n, p4) = next_step_spec(tape, p3, TOKEN_RBRACE, "expected ',' or '}' at tape["@);
                            match n {
                                Err(e) => (Err(e), p4),
                                Ok(more) => if !more {
                                    (Ok(acc2), p4)
                                } else if pos < p4 <= tape.len() {
                                    user_members(src, tape, p4, acc2)
                                } else {
                                    (Err(ErrorView::Custom(Seq::empty())), p4)
                                },
                            }
                        },
                    }
                },
            }
        },
    }
}

/// The outcome of reading a user: `{`, then its members; fields that do
/// not occur keep their defaults (0, empty, false).
pub open spec fn user_spec(src: Seq<u8>, tape: Seq<u32>, pos: int) -> (Result<UserFields, ErrorView>, int) {
    let (b, p1) = expect_tag_spec(src, tape, pos, TOKEN_LBRACE, "'{'"@);
    match b {
        Err(e) => (Err(e), p1),
        Ok(_) => if tag_at(tape, p1) == Some(TOKEN_RBRACE) {
            (Ok((0, Seq::empty(), false)), p1 + 1)
        } else {
            user_members(src, tape, p1, (0, Seq::empty(), false))
        },
    }
}

/// Reads the value of the member `key` into `user`: `id`, `name` and
/// `active` replace their field; any other member is skipped.
fn read_user_field(parser: &mut Parser<'_>, key: &String, user: &mut FastUser) -> (r: Result<(), Error>)
    requires
        old(parser).wf(),
        old(parser).pos <= old(parser).tape@.len(),
    ensures
        final(parser).src == old(parser).src,
        final(parser).tape@ == old(parser).tape@,
        old(parser).pos <= final(parser).pos,
        ({
            let (sr, sp) = user_field(
                old(parser).src@,
                old(parser).tape@,
                old(parser).pos as int,
                key@,
                (old(user).id as int, old(user).name@, old(user).active),
            );
            &&& final(parser).pos as int == sp
            &&& match r {
                Ok(_) => sr == Ok::<UserFields, ErrorView>(
                    (final(user).id as int, final(user).name@, final(user).active),
                ),
                Err(e) => sr == Err::<UserFields, ErrorView>(e@),
            }
        }),
{
    let id_key = text("id");
    let name_key = text("name");
    let active_key = text("active");
    if *key == id_key {
        match u64::deserialize(parser) {
            Ok(v) => {
                user.id = v;
                Ok(())
            },
            Err(e) => Err(e),
        }
    } else if *key == name_key {
        match String::deserialize(parser) {
            Ok(v) => {
                user.name = v;
                Ok(())
            },
            Err(e) => Err(e),
        }
    } else if *key == active_key {
        match bool::deserialize(parser) {
            Ok(v) => {
                user.active = v;
                Ok(())
            },
            Err(e) => Err(e),
        }
    } else {
        proof {
            lemma_skip_value_advances(parser.tape@, parser.pos as int);
        }
        parser.skip_value()
    }
}

impl Deserialize for FastUser {
    type Model = UserFields;

    open spec fn models(&self, m: UserFields) -> bool {
        self.id as int == m.0 && self.name@ == m.1 && self.active == m.2
    }

    open spec fn parse_spec(src: Seq<u8>, tape: Seq<u32>, pos: int) -> (Result<UserFields, ErrorView>, int) {
        user_spec(src, tape, pos)
    }

    open spec fn reads_tag_first() -> bool {
        true
    }

    fn deserialize(parser: &mut Parser<'_>) -> (r: Result<Self, Error>) {
        match parser.begin_object() {
            Ok(_) => {},
            Err(e) => return Err(e),
        }
        let mut user = FastUser::default();
        if parser.pos < parser.tape.len() && (parser.tape[parser.pos] & 0xF000_0000u32)
            == TOKEN_RBRACE {
            parser.pos = parser.pos + 1;
            return Ok(user);
        }
        let ghost src = parser.src@;
        let ghost tape = parser.tape@;
        loop
            invariant
                parser.src == old(parser).src,
                parser.tape@ == old(parser).tape@,
                src == parser.src@,
                tape == parser.tape@,
                parser.wf(),
                old(parser).pos < parser.pos <= tape.len(),
                user_spec(src, tape, old(parser).pos as int) == user_members(
                    src,
                    tape,
                    parser.pos as int,
                    (user.id as int, user.name@, user.active),
                ),
            decreases tape.len() - parser.pos,
        {
            let key = match parser.parse_string_owned() {
                Ok(k) => k,
                Err(e) => return Err(e),
            };
            match parser.expect_colon() {
                Ok(_) => {},
                Err(e) => return Err(e),
            }
            match read_user_field(parser, &key, &mut user) {
                Ok(_) => {},
                Err(e) => return Err(e),
            }
            match parser.object_next() {
                Err(e) => return Err(e),
                Ok(more) => if !more {
                    return Ok(user);
                },
            }
        }
    }
}

} // verus!
