//! Keys of the network plot configuration.

use vstd::prelude::*;
use vstd::string::StrSliceExecFns;
use vstd::string::StringExecFns;

verus! {

/// One setting of the network plot configuration.
#[derive(Clone, Copy, Debug, PartialEq, Eq, Structural)]
pub enum ConfigKey {
    Width,
    Height,
    DeltaX,
    DeltaY,
    Offset,
    Radius,
    Fontsize,
    Fontface,
}

/// The name under which a setting is written in a configuration table.
pub open spec fn key_name(key: ConfigKey) -> Seq<char> {
    match key {
        ConfigKey::Width => "width"@,
        ConfigKey::Height => "height"@,
        ConfigKey::DeltaX => "delta_x"@,
        ConfigKey::DeltaY => "delta_y"@,
        ConfigKey::Offset => "offset"@,
        ConfigKey::Radius => "radius"@,
        ConfigKey::Fontsize => "fontsize"@,
        ConfigKey::Fontface => "fontface"@,
    }
}

/// The setting that a name denotes, if any.
pub open spec fn key_of_name(name: Seq<char>) -> Option<ConfigKey> {
    if name == "width"@ {
        Some(ConfigKey::Width)
    } else if name == "height"@ {
        Some(ConfigKey::Height)
    } else if name == "delta_x"@ {
        Some(ConfigKey::DeltaX)
    } else if name == "delta_y"@ {
        Some(ConfigKey::DeltaY)
    } else if name == "offset"@ {
        Some(ConfigKey::Offset)
    } else if name == "radius"@ {
        Some(ConfigKey::Radius)
    } else if name == "fontsize"@ {
        Some(ConfigKey::Fontsize)
    } else if name == "fontface"@ {
        Some(ConfigKey::Fontface)
    } else {
        None
    }
}

/// What `{:?}` writes for a string: the text quoted, with its special
/// characters escaped.
pub uninterp spec fn debug_text(s: Seq<char>) -> Seq<char>;

/// The message that rejects an unknown key, given the key as `{:?}` writes it.
pub open spec fn unknown_key_text(quoted: Seq<char>) -> Seq<char> {
    "unknown key "@ + quoted + " in networkplot config"@
}

/// Calls std's `Debug` formatting of a `str` (`format!("{:?}", s)`); trusted
/// to return what the named function `debug_text` gives for the same text.
#[verifier::external_body]
fn debug_quote(s: &str) -> (res: String)
    ensures
        res@ == debug_text(s@),
{
    format!("{:?}", s)
}

/// Whether two strings hold the same characters.
pub fn str_equals(a: &str, b: &str) -> (res: bool)
    ensures
        res == (a@ == b@),
{
    let n = a.unicode_len();
    if n != b.unicode_len() {
        return false;
    }
    let mut i: usize = 0;
    while i < n
        invariant
            n == a@.len(),
            n == b@.len(),
            i <= n,
            forall|j: int| 0 <= j < i ==> a@[j] == b@[j],
        decreases n - i,
    {
        if a.get_char(i) != b.get_char(i) {
            return false;
        }
        i = i + 1;
    }
    assert(a@ =~= b@);
    true
}

/// The message that rejects an unknown key, given the key as `{:?}` writes it.
pub fn unknown_key_message(quoted: &str) -> (res: String)
    ensures
        res@ == unknown_key_text(quoted@),
{
    let mut msg = String::from_str("unknown key ");
    msg.append(quoted);
    msg.append(" in networkplot config");
    proof {
        reveal_strlit("unknown key ");
        reveal_strlit(" in networkplot config");
    }
    msg
}

/// Every setting is recognised under its own name: reading the name of a
/// setting gives that setting back.
pub proof fn lemma_key_name_roundtrip(key: ConfigKey)
    ensures
        key_of_name(key_name(key)) == Some(key),
{
    reveal_strlit("width");
    reveal_strlit("height");
    reveal_strlit("delta_x");
    reveal_strlit("delta_y");
    reveal_strlit("offset");
    reveal_strlit("radius");
    reveal_strlit("fontsize");
    reveal_strlit("fontface");
    // the names differ in their length, their first letter or their last one
    assert("width"@.len() == 5 && "height"@.len() == 6 && "delta_x"@.len() == 7);
    assert("delta_y"@.len() == 7 && "offset"@.len() == 6 && "radius"@.len() == 6);
    assert("fontsize"@.len() == 8 && "fontface"@.len() == 8);
    assert("height"@[0] == 'h' && "offset"@[0] == 'o' && "radius"@[0] == 'r');
    assert("delta_x"@[6] == 'x' && "delta_y"@[6] == 'y');
    assert("fontsize"@[4] == 's' && "fontface"@[4] == 'f');
}

/// A name is accepted exactly when it is the name of some setting, and then
/// it denotes that setting.
pub proof fn lemma_accepted_names(name: Seq<char>)
    ensures
        key_of_name(name) is Some <==> exists|k: ConfigKey| key_name(k) == name,
        key_of_name(name) matches Some(k) ==> key_name(k) == name,
{
    if key_of_name(name) is Some {
        let k = key_of_name(name)->0;
        assert(key_name(k) == name);
    }
    if exists|k: ConfigKey| key_name(k) == name {
        let k = choose|k: ConfigKey| key_name(k) == name;
        lemma_key_name_roundtrip(k);
    }
}

/// The setting that a configuration key names, or the message that rejects
/// the key.
pub fn parse_config_key(key: &str) -> (res: Result<ConfigKey, String>)
    ensures
        match res {
            Ok(k) => key_of_name(key@) == Some(k),
            Err(msg) => key_of_name(key@) is None && msg@ == unknown_key_text(debug_text(key@)),
        },
{
    if str_equals(key, "width") {
        Ok(ConfigKey::Width)
    } else if str_equals(key, "height") {
        Ok(ConfigKey::Height)
    } else if str_equals(key, "delta_x") {
        Ok(ConfigKey::DeltaX)
    } else if str_equals(key, "delta_y") {
        Ok(ConfigKey::DeltaY)
    } else if str_equals(key, "offset") {
        Ok(ConfigKey::Offset)
    } else if str_equals(key, "radius") {
        Ok(ConfigKey::Radius)
    } else if str_equals(key, "fontsize") {
        Ok(ConfigKey::Fontsize)
    } else if str_equals(key, "fontface") {
        Ok(ConfigKey::Fontface)
    } else {
        let quoted = debug_quote(key);
        Err(unknown_key_message(quoted.as_str()))
    }
}

} // verus!
