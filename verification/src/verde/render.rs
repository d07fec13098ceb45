use vstd::prelude::*;

use crate::api::{chain, find_meta, property_meta, ApiDump, PropMeta};
use crate::hex::{lemma_hex_len, push_char, push_hex, spec_hex};
use crate::protocol::operation::{EnumEntry, EnumFamily};

verus! {

/// A 16-byte id as a dashed UUID: 8-4-4-4-12 hex digits.
pub open spec fn spec_uuid(id: Seq<u8>) -> Seq<char> {
    spec_hex(id.subrange(0, 4)) + seq!['-'] + spec_hex(id.subrange(4, 6)) + seq!['-'] + spec_hex(
        id.subrange(6, 8),
    ) + seq!['-'] + spec_hex(id.subrange(8, 10)) + seq!['-'] + spec_hex(id.subrange(10, 16))
}

/// An opaque byte blob as text: a 16-byte id, alone or behind a one-byte tag,
/// as a dashed UUID; anything else as plain hex.
pub open spec fn spec_render_bytes(bytes: Seq<u8>) -> Seq<char> {
    if bytes.len() == 17 {
        spec_uuid(bytes.subrange(1, 17))
    } else if bytes.len() == 16 {
        spec_uuid(bytes)
    } else {
        spec_hex(bytes)
    }
}

/// Render an opaque byte blob (e.g. `Player.User`): a 16-byte id (optionally
/// behind a leading one-byte tag) as a dashed UUID, otherwise plain hex.
pub fn render_bytes(bytes: &[u8]) -> (r: String)
    ensures
        r@ == spec_render_bytes(bytes@),
{
    let mut out = String::new();
    let len = bytes.len();
    if len != 16 && len != 17 {
        push_hex(&mut out, bytes, 0, len);
        assert(bytes@.subrange(0, len as int) =~= bytes@);
        return out;
    }
    let start: usize = if len == 17 {
        1
    } else {
        0
    };
    let ghost id = bytes@.subrange(start as int, start + 16);
    push_hex(&mut out, bytes, start, start + 4);
    push_char(&mut out, '-');
    push_hex(&mut out, bytes, start + 4, start + 6);
    push_char(&mut out, '-');
    push_hex(&mut out, bytes, start + 6, start + 8);
    push_char(&mut out, '-');
    push_hex(&mut out, bytes, start + 8, start + 10);
    push_char(&mut out, '-');
    push_hex(&mut out, bytes, start + 10, start + 16);
    assert(id.subrange(0, 4) =~= bytes@.subrange(start as int, start + 4));
    assert(id.subrange(4, 6) =~= bytes@.subrange(start + 4, start + 6));
    assert(id.subrange(6, 8) =~= bytes@.subrange(start + 6, start + 8));
    assert(id.subrange(8, 10) =~= bytes@.subrange(start + 8, start + 10));
    assert(id.subrange(10, 16) =~= bytes@.subrange(start + 10, start + 16));
    if len == 16 {
        assert(id =~= bytes@);
    }
    assert(out@ =~= spec_uuid(id));
    out
}

/// Properties verde's inspector hides (structural or security-internal).
pub open spec fn spec_is_hidden(name: Seq<char>) -> bool {
    ||| name == "Parent"@
    ||| name == "ClassName"@
    ||| name == "Capabilities"@
    ||| name == "Sandboxed"@
    ||| name == "RobloxLocked"@
}

/// Whether verde's inspector hides the property `name`.
pub fn is_hidden_property(name: &String) -> (r: bool)
    ensures
        r == spec_is_hidden(name@),
{
    *name == String::from_str("Parent") || *name == String::from_str("ClassName") || *name
        == String::from_str("Capabilities") || *name == String::from_str("Sandboxed") || *name
        == String::from_str("RobloxLocked")
}

/// The inspector metadata a property is shown with: what the dump says of it
/// for the read node's class, or the default when the class or property is
/// unknown.
pub fn property_metadata(dump: &ApiDump, class: Option<&str>, name: &str) -> (r: PropMeta)
    ensures
        match class {
            Some(c) => match find_meta(dump.classes(), chain(dump.classes(), c@), name@) {
                Some(meta) => r == meta,
                None => r.category@ == "Other"@ && !r.read_only && r.layout_order == 0
                    && r.security_level == 2,
            },
            None => r.category@ == "Other"@ && !r.read_only && r.layout_order == 0
                && r.security_level == 2,
        },
{
    let found = match class {
        Some(c) => property_meta(dump, c, name),
        None => None,
    };
    match found {
        Some(meta) => meta,
        None => PropMeta::default(),
    }
}

/// How an enum value is shown: the family's name, the item's value and name
/// (empty when the family has no such item), and every selectable option.
#[derive(Debug, Clone, PartialEq, Eq)]
pub struct EnumRendering {
    pub family_name: String,
    pub value: u32,
    pub name: String,
    pub options: Vec<EnumEntry>,
}

/// The first item of `items` with `value`, if any.
pub open spec fn first_item(items: Seq<EnumEntry>, value: u32) -> Option<EnumEntry>
    decreases items.len(),
{
    if items.len() == 0 {
        None
    } else if items[0].value == value {
        Some(items[0])
    } else {
        first_item(items.drop_first(), value)
    }
}

/// The name of the first item with `value`, empty when there is none.
fn item_name(items: &Vec<EnumEntry>, value: u32) -> (r: String)
    ensures
        r@ == match first_item(items@, value) {
            Some(entry) => entry.name@,
            None => Seq::empty(),
        },
{
    let mut k: usize = 0;
    assert(items@.skip(0) =~= items@);
    while k < items.len()
        invariant
            k <= items@.len(),
            first_item(items@, value) == first_item(items@.skip(k as int), value),
        decreases items@.len() - k,
    {
        assert(items@.skip(k as int)[0] == items@[k as int]);
        assert(items@.skip(k as int).drop_first() =~= items@.skip(k + 1));
        if items[k].value == value {
            return items[k].name.clone();
        }
        k = k + 1;
    }
    assert(items@.skip(k as int) =~= Seq::<EnumEntry>::empty());
    String::new()
}

/// How an enum value of family `family_index` is shown against the client's
/// catalog: `None` when the catalog has no such family (verde then shows the
/// bare value).
pub fn describe_enum(family_index: u16, value: u32, catalog: &Vec<EnumFamily>) -> (r: Option<EnumRendering>)
    ensures
        match r {
            Some(rendering) => {
                let family = catalog@[family_index as int];
                &&& (family_index as int) < catalog@.len()
                &&& rendering.family_name == family.name
                &&& rendering.value == value
                &&& rendering.name@ == match first_item(family.items@, value) {
                    Some(entry) => entry.name@,
                    None => Seq::empty(),
                }
                &&& rendering.options@ == family.items@
            },
            None => family_index as int >= catalog@.len(),
        },
{
    if family_index as usize >= catalog.len() {
        return None;
    }
    let family = &catalog[family_index as usize];
    let name = item_name(&family.items, value);
    let mut options: Vec<EnumEntry> = Vec::new();
    let mut j: usize = 0;
    while j < family.items.len()
        invariant
            j <= family.items@.len(),
            options@ == family.items@.take(j as int),
        decreases family.items@.len() - j,
    {
        let entry = &family.items[j];
        options.push(EnumEntry { name: entry.name.clone(), value: entry.value });
        assert(options@ =~= family.items@.take(j + 1));
        j = j + 1;
    }
    assert(options@ =~= family.items@);
    Some(EnumRendering { family_name: family.name.clone(), value, name, options })
}

} // verus!
