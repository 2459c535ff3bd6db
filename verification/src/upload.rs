//! Upload-part dispatch: the decisions the ingestion adapter takes while it
//! walks a multipart form, accumulating the three logical fields of one
//! request — the commands buffer, the output buffer, and the append-mode
//! flag.

use vstd::prelude::*;

verus! {

/// The exact byte literal `true`, the only part value that enables append
/// mode.
pub open spec fn is_true_literal(value: Seq<u8>) -> bool {
    value == seq![116u8, 114u8, 117u8, 101u8]
}

/// Whether an `append_mode` part value is exactly the literal `true` —
/// a byte-for-byte match, neither case-insensitive nor trimmed.
pub fn parse_append_mode(value: &Vec<u8>) -> (r: bool)
    ensures
        r == is_true_literal(value@),
{
    let r = value.len() == 4 && value[0] == 116u8 && value[1] == 114u8 && value[2] == 117u8
        && value[3] == 101u8;
    proof {
        if r {
            assert(value@ =~= seq![116u8, 114u8, 117u8, 101u8]);
        }
    }
    r
}

/// The three logical fields of one upload, accumulated part by part as the
/// ingestion adapter walks the multipart form.
pub struct UploadParts {
    /// Raw bytes of the `commands.txt` part.
    pub commands: Vec<u8>,
    /// Raw bytes of the `output.txt` part.
    pub output: Vec<u8>,
    /// Whether an `append_mode` part carried the literal value `true`.
    pub append_mode: bool,
}

impl UploadParts {
    /// The state before any part arrives: both buffers empty, append mode
    /// off.
    pub fn new() -> (r: UploadParts)
        ensures
            r.commands@ == Seq::<u8>::empty(),
            r.output@ == Seq::<u8>::empty(),
            r.append_mode == false,
    {
        UploadParts { commands: Vec::new(), output: Vec::new(), append_mode: false }
    }

    /// Stores one received part under its field name: `commands.txt` and
    /// `output.txt` each replace their buffer; an `append_mode` part whose
    /// value is exactly the literal `true` switches append mode on (and a
    /// later value never switches it back off); a part under any other
    /// name is ignored.
    pub fn store_part(&mut self, name: &String, data: Vec<u8>)
        ensures
            name@ == "commands.txt"@ ==> final(self).commands@ == data@
                && final(self).output == old(self).output
                && final(self).append_mode == old(self).append_mode,
            name@ == "output.txt"@ ==> final(self).output@ == data@
                && final(self).commands == old(self).commands
                && final(self).append_mode == old(self).append_mode,
            name@ == "append_mode"@ ==> final(self).append_mode == (old(self).append_mode
                || is_true_literal(data@))
                && final(self).commands == old(self).commands
                && final(self).output == old(self).output,
            name@ != "commands.txt"@ && name@ != "output.txt"@ && name@ != "append_mode"@
                ==> *final(self) == *old(self),
    {
        proof {
            reveal_strlit("commands.txt");
            reveal_strlit("output.txt");
            reveal_strlit("append_mode");
            assert("commands.txt"@.len() == 12);
            assert("output.txt"@.len() == 10);
            assert("append_mode"@.len() == 11);
        }
        if *name == String::from_str("commands.txt") {
            self.commands = data;
        } else if *name == String::from_str("output.txt") {
            self.output = data;
        } else if *name == String::from_str("append_mode") {
            if parse_append_mode(&data) {
                self.append_mode = true;
            }
        }
    }
}

} // verus!
