//! The error shapes used to report missing or invalid fields, and their
//! rendering.
//!
//! The two shapes are inert data populated by a higher-level decoder;
//! this module renders them to text and lists the names of missing
//! members.  Since the mask is 64 bits wide, descriptor tables are
//! limited to 64 entries.

use vstd::prelude::*;
use vstd::string::StringExecFns;

verus! {

/// Strict parse error for generated read APIs: either an aggregated
/// bitmask of missing required members over a descriptor table of
/// `(name, tag_or_count_tag, kind)` triples (kind 0 is a field, 1 a
/// component, 2 a group), or a single invalid value.
#[derive(Debug)]
pub enum ReadError {
    MissingRequiredFields { missing_mask: u64, meta: Vec<(String, u16, u8)> },
    InvalidValue { name: String, tag: u16, msg: String },
}

/// True when bit `i` of `mask` is set.
pub open spec fn bit_set(mask: u64, i: int) -> bool {
    (mask >> (i as u64)) & 1 == 1
}

/// The decimal rendering of `n` as characters.
pub open spec fn dec_chars(n: nat) -> Seq<char>
    decreases n,
{
    if n < 10 {
        seq![((48 + n) as u8) as char]
    } else {
        dec_chars(n / 10).push(((48 + n % 10) as u8) as char)
    }
}

/// One uppercase hexadecimal digit character.
pub open spec fn hex_digit_char(d: nat) -> char {
    if d < 10 {
        ((48 + d) as u8) as char
    } else {
        ((55 + d) as u8) as char
    }
}

/// The uppercase hexadecimal rendering of `n` as characters.
pub open spec fn hex_chars(n: nat) -> Seq<char>
    decreases n,
{
    if n < 16 {
        seq![hex_digit_char(n)]
    } else {
        hex_chars(n / 16).push(hex_digit_char(n % 16))
    }
}

/// The rendering of one descriptor:
/// `<kind> <name>(tag=<tag>)`, with `countTag` in place of `tag` for the
/// group kind.
pub open spec fn descriptor_chars(d: (String, u16, u8)) -> Seq<char> {
    let kind_word: Seq<char> = if d.2 == 0 {
        "field"@
    } else if d.2 == 1 {
        "component"@
    } else {
        "group"@
    };
    let tag_label: Seq<char> = if d.2 == 2 {
        "(countTag="@
    } else {
        "(tag="@
    };
    kind_word + seq![' '] + d.0@ + tag_label + dec_chars(d.1 as nat) + seq![')']
}

/// The comma-joined renderings of the first `upto` descriptors whose
/// mask bit is set.
pub open spec fn missing_items_chars(mask: u64, meta: Seq<(String, u16, u8)>, upto: int) -> Seq<
    char,
>
    decreases upto,
{
    if upto <= 0 {
        Seq::empty()
    } else {
        let prev = missing_items_chars(mask, meta, upto - 1);
        if bit_set(mask, upto - 1) {
            if prev.len() == 0 {
                descriptor_chars(meta[upto - 1])
            } else {
                prev + ", "@ + descriptor_chars(meta[upto - 1])
            }
        } else {
            prev
        }
    }
}

/// The names of the first `upto` descriptors whose mask bit is set.
pub open spec fn missing_names(mask: u64, meta: Seq<(String, u16, u8)>, upto: int) -> Seq<
    Seq<char>,
>
    decreases upto,
{
    if upto <= 0 {
        Seq::empty()
    } else {
        let prev = missing_names(mask, meta, upto - 1);
        if bit_set(mask, upto - 1) {
            prev.push(meta[upto - 1].0@)
        } else {
            prev
        }
    }
}

/// The full rendering of an error value.
pub open spec fn rendered_chars(e: ReadError) -> Seq<char> {
    match e {
        ReadError::MissingRequiredFields { missing_mask, meta } => {
            if missing_mask == 0 {
                "No required members are missing"@
            } else {
                "Missing required members (mask=0x"@ + hex_chars(missing_mask as nat) + "): "@
                    + missing_items_chars(missing_mask, meta@, meta@.len() as int)
            }
        },
        ReadError::InvalidValue { name, tag, msg } => {
            "Invalid value for "@ + name@ + " (tag="@ + dec_chars(tag as nat) + "): "@ + msg@
        },
    }
}

/// Relies on `String::push`: appends the given character to the end of
/// the string.
#[verifier::external_body]
fn push_char(s: &mut String, c: char)
    ensures
        final(s)@ == old(s)@.push(c),
{
    s.push(c);
}

/// Append the decimal rendering of `n` to `out`.
fn push_dec_u64(out: &mut String, n: u64)
    ensures
        final(out)@ == old(out)@ + dec_chars(n as nat),
    decreases n,
{
    if n >= 10 {
        push_dec_u64(out, n / 10);
    }
    push_char(out, (48 + (n % 10) as u8) as char);
    proof {
        if n < 10 {
            assert(dec_chars(n as nat) =~= seq![((48 + n as nat) as u8) as char]);
            assert(old(out)@ + dec_chars(n as nat) =~= old(out)@.push(
                (48 + (n % 10) as u8) as char,
            ));
        } else {
            assert(old(out)@ + dec_chars(n as nat) =~= (old(out)@ + dec_chars((n / 10) as nat))
                .push(((48 + n as nat % 10) as u8) as char));
        }
    }
}

/// Append the uppercase hexadecimal rendering of `n` to `out`.
fn push_hex_u64(out: &mut String, n: u64)
    ensures
        final(out)@ == old(out)@ + hex_chars(n as nat),
    decreases n,
{
    if n >= 16 {
        push_hex_u64(out, n / 16);
    }
    let d = (n % 16) as u8;
    let c = if d < 10 {
        (48 + d) as char
    } else {
        (55 + d) as char
    };
    proof {
        assert(c == hex_digit_char((n % 16) as nat));
    }
    push_char(out, c);
    proof {
        if n < 16 {
            assert(hex_chars(n as nat) =~= seq![hex_digit_char(n as nat)]);
            assert(old(out)@ + hex_chars(n as nat) =~= old(out)@.push(c));
        } else {
            assert(old(out)@ + hex_chars(n as nat) =~= (old(out)@ + hex_chars((n / 16) as nat))
                .push(hex_digit_char((n % 16) as nat)));
        }
    }
}

/// Append the rendering of one descriptor to `out`.
fn push_descriptor(out: &mut String, name: &String, tag: u16, kind: u8)
    ensures
        final(out)@ == old(out)@ + descriptor_chars((*name, tag, kind)),
{
    let ghost out0 = out@;
    if kind == 0 {
        out.append("field");
    } else if kind == 1 {
        out.append("component");
    } else {
        out.append("group");
    }
    push_char(out, ' ');
    out.append(name.as_str());
    if kind == 2 {
        out.append("(countTag=");
    } else {
        out.append("(tag=");
    }
    push_dec_u64(out, tag as u64);
    push_char(out, ')');
    proof {
        assert(out@ =~= out0 + descriptor_chars((*name, tag, kind)));
    }
}

impl ReadError {
    /// Render the error as text: the fixed no-members-missing message
    /// for a zero mask, the comma-joined missing descriptors otherwise,
    /// or the invalid-value message.
    pub fn render(&self) -> (r: String)
        requires
            self matches ReadError::MissingRequiredFields { missing_mask, meta } ==> meta@.len()
                <= 64,
        ensures
            r@ == rendered_chars(*self),
    {
        match self {
            ReadError::MissingRequiredFields { missing_mask, meta } => {
                if *missing_mask == 0 {
                    String::from_str("No required members are missing")
                } else {
                    let mask = *missing_mask;
                    let mut out = String::from_str("Missing required members (mask=0x");
                    push_hex_u64(&mut out, mask);
                    out.append("): ");
                    let ghost head = out@;
                    let mut first = true;
                    let mut i: usize = 0;
                    while i < meta.len()
                        invariant
                            i <= meta@.len() <= 64,
                            first == (missing_items_chars(mask, meta@, i as int).len() == 0),
                            out@ == head + missing_items_chars(mask, meta@, i as int),
                        decreases meta@.len() - i,
                    {
                        if (mask >> (i as u64)) & 1 == 1 {
                            let d = &meta[i];
                            if !first {
                                out.append(", ");
                            }
                            first = false;
                            push_descriptor(&mut out, &d.0, d.1, d.2);
                            proof {
                                assert(descriptor_chars(meta@[i as int]).len() > 0);
                                assert(out@ =~= head + missing_items_chars(
                                    mask,
                                    meta@,
                                    i + 1,
                                ));
                            }
                        }
                        i = i + 1;
                    }
                    out
                }
            },
            ReadError::InvalidValue { name, tag, msg } => {
                let mut out = String::from_str("Invalid value for ");
                out.append(name.as_str());
                out.append(" (tag=");
                push_dec_u64(&mut out, *tag as u64);
                out.append("): ");
                out.append(msg.as_str());
                proof {
                    assert(out@ =~= rendered_chars(*self));
                }
                out
            },
        }
    }

    /// The ordered names of the missing members when this is the
    /// missing-fields shape (the empty list when no bit is set), or
    /// nothing for the invalid-value shape.
    pub fn missing_member_names(&self) -> (r: Option<Vec<String>>)
        requires
            self matches ReadError::MissingRequiredFields { missing_mask, meta } ==> meta@.len()
                <= 64,
        ensures
            match *self {
                ReadError::MissingRequiredFields { missing_mask, meta } => r matches Some(v)
                    && v@.map_values(|s: String| s@) == missing_names(
                    missing_mask,
                    meta@,
                    meta@.len() as int,
                ),
                ReadError::InvalidValue { .. } => r is None,
            },
    {
        match self {
            ReadError::MissingRequiredFields { missing_mask, meta } => {
                let mask = *missing_mask;
                let mut v: Vec<String> = Vec::new();
                let mut i: usize = 0;
                while i < meta.len()
                    invariant
                        i <= meta@.len() <= 64,
                        v@.map_values(|s: String| s@) == missing_names(mask, meta@, i as int),
                    decreases meta@.len() - i,
                {
                    if (mask >> (i as u64)) & 1 == 1 {
                        let name = meta[i].0.clone();
                        proof {
                            assert(name@ == meta@[i as int].0@);
                        }
                        v.push(name);
                    }
                    proof {
                        assert(v@.map_values(|s: String| s@) =~~= missing_names(
                            mask,
                            meta@,
                            i + 1,
                        ));
                    }
                    i = i + 1;
                }
                Some(v)
            },
            ReadError::InvalidValue { .. } => None,
        }
    }
}

} // verus!
