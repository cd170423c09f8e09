use vstd::prelude::*;
use vstd::utf8::encode_utf8;

verus! {

/// Sends back what it receives, with a prefix where it has one.
#[derive(Debug)]
pub struct EchoProcess {
    pub prefix: Option<String>,
}

impl EchoProcess {
    /// What is sent back for `received`: the prefix, a colon and a space, then
    /// the bytes received; only those where there is no prefix.
    pub open spec fn spec_reply(&self, received: Seq<u8>) -> Seq<u8> {
        match self.prefix {
            Some(prefix) => encode_utf8(prefix@) + encode_utf8(": "@) + received,
            None => received,
        }
    }

    pub fn reply(&self, received: &[u8]) -> (r: Vec<u8>)
        ensures
            r@ == self.spec_reply(received@),
    {
        let mut out: Vec<u8> = Vec::new();
        if let Some(prefix) = &self.prefix {
            out.extend_from_slice(prefix.as_str().as_bytes());
            out.extend_from_slice(": ".as_bytes());
            assert(out@ =~= encode_utf8(prefix@) + encode_utf8(": "@));
        }
        let ghost before = out@;
        out.extend_from_slice(received);
        assert(out@ =~= before + received@);
        out
    }

    pub fn name(&self) -> (r: String)
        ensures
            r@ == "EchoProcess"@,
    {
        "EchoProcess".to_owned()
    }
}

} // verus!
