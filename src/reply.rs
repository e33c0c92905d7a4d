use vstd::prelude::*;
use vstd::string::StringExecFns;

verus! {

/// The store's answer to one request.
pub enum Reply {
    /// The value was stored.
    Done,
    /// The key is bound to this value.
    Found(String),
    /// The key has no value.
    NotFound,
}

/// A reply with the value as a character sequence.
pub enum ReplyView {
    Done,
    Found(Seq<char>),
    NotFound,
}

impl View for Reply {
    type V = ReplyView;

    open spec fn view(&self) -> ReplyView {
        match self {
            Reply::Done => ReplyView::Done,
            Reply::Found(v) => ReplyView::Found(v@),
            Reply::NotFound => ReplyView::NotFound,
        }
    }
}

/// The reply's bytes on the wire: `DONE$`, `FOUND$` value `$`, or `NOTFOUND$`.
pub open spec fn reply_wire(r: ReplyView) -> Seq<char> {
    match r {
        ReplyView::Done => seq!['D', 'O', 'N', 'E', '$'],
        ReplyView::Found(v) => seq!['F', 'O', 'U', 'N', 'D', '$'] + v + seq!['$'],
        ReplyView::NotFound => seq!['N', 'O', 'T', 'F', 'O', 'U', 'N', 'D', '$'],
    }
}

impl Reply {
    /// The text to send to the client for this reply.
    pub fn encode(&self) -> (r: String)
        ensures
            r@ == reply_wire(self@),
    {
        match self {
            Reply::Done => {
                proof {
                    reveal_strlit("DONE$");
                }
                let r = String::from_str("DONE$");
                assert(r@ =~= reply_wire(self@));
                r
            },
            Reply::Found(v) => {
                proof {
                    reveal_strlit("FOUND$");
                    reveal_strlit("$");
                }
                let mut r = String::from_str("FOUND$");
                r.append(v.as_str());
                r.append("$");
                assert(r@ =~= reply_wire(self@));
                r
            },
            Reply::NotFound => {
                proof {
                    reveal_strlit("NOTFOUND$");
                }
                let r = String::from_str("NOTFOUND$");
                assert(r@ =~= reply_wire(self@));
                r
            },
        }
    }
}

} // verus!
