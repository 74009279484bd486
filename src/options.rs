use vstd::prelude::*;
use vstd::string::StringExecFns;

verus! {

/// Display options read from a meal file.
pub struct Options {
    pub show_status: bool,
}

/// The name of the option that asks for the status line.
pub open spec fn show_status_key() -> Seq<char> {
    "show_status"@
}

impl Options {
    pub fn new() -> (r: Options)
        ensures
            !r.show_status,
    {
        Options { show_status: false }
    }

    /// Sets the option `key` to `value`, which holds the option's value when it is a boolean.
    /// Fails, leaving the options as they were, for an unknown key or a missing boolean.
    pub fn set(&mut self, key: &str, value: Option<bool>) -> (r: Result<(), String>)
        ensures
            key@ == show_status_key() && value is Some ==> r is Ok && final(self).show_status == value.unwrap(),
            !(key@ == show_status_key() && value is Some) ==> r is Err && final(self).show_status == old(
                self,
            ).show_status,
    {
        if key.to_owned() == "show_status".to_owned() {
            match value {
                Some(v) => {
                    self.show_status = v;
                    Ok(())
                },
                None => Err(String::from_str("show_statusの値はboolにしてください")),
            }
        } else {
            let mut message = String::from_str(key);
            message.append(" というオプションはありません");
            Err(message)
        }
    }
}

} // verus!
