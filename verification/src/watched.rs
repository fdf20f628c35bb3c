//! The watched-history log: an append-only ledger of finished and dropped
//! shows, each line carrying a date stamp.

use crate::strkit::{dec_spec, is_digit, today_stamp, trim_end_spec, trim_end_str, u64_to_string};
use vstd::prelude::*;

verus! {

/// One appended record: the stamp, a separator, the text, a newline.
pub open spec fn record_line(stamp: Seq<char>, text: Seq<char>) -> Seq<char> {
    stamp + " - "@ + text + seq!['\n']
}

/// The `YY.MM.DD` shape every date stamp has, whatever day the clock reports.
pub open spec fn stamp_shape(s: Seq<char>) -> bool {
    &&& s.len() == 8
    &&& s[2] == '.' && s[5] == '.'
    &&& is_digit(s[0]) && is_digit(s[1]) && is_digit(s[3]) && is_digit(s[4]) && is_digit(s[6])
        && is_digit(s[7])
}

/// The annotation a dropped show is recorded with.
pub open spec fn drop_annotation(latest_episode: u32, show: Seq<char>) -> Seq<char> {
    "(dropped at ep "@ + dec_spec(latest_episode as nat) + ") "@ + show
}

/// The full content of the watched-history file. Records are only ever
/// appended; nothing is rewritten or removed.
pub struct WatchedRepo {
    contents: String,
}

impl View for WatchedRepo {
    type V = Seq<char>;

    closed spec fn view(&self) -> Seq<char> {
        self.contents@
    }
}

impl WatchedRepo {
    /// Opens the log on the watched file's content.
    pub fn new(contents: &str) -> (r: WatchedRepo)
        ensures
            r@ == contents@,
    {
        WatchedRepo { contents: String::from_str(contents) }
    }

    /// The log as the user sees it: byte-identical to the file content with
    /// only trailing whitespace trimmed — never re-sorted or re-formatted.
    pub fn read(&self) -> (r: String)
        ensures
            r@ == trim_end_spec(self@),
    {
        trim_end_str(self.contents.as_str())
    }

    /// The exact text to persist.
    pub fn render(&self) -> (r: String)
        ensures
            r@ == self@,
    {
        self.contents.clone()
    }

    /// Appends one record under the given stamp.
    pub fn append_record(&mut self, stamp: &str, text: &str)
        ensures
            final(self)@ == old(self)@ + record_line(stamp@, text@),
    {
        self.contents.append(stamp);
        self.contents.append(" - ");
        self.contents.append(text);
        self.contents.append("\n");
        proof {
            reveal_strlit(" - ");
            reveal_strlit("\n");
            assert(self@ =~= old(self)@ + record_line(stamp@, text@));
        }
    }

    /// Records a finished show under today's date.
    pub fn finish(&mut self, show: &str)
        ensures
            exists|stamp: Seq<char>|
                #[trigger] stamp_shape(stamp) && final(self)@ == old(self)@ + record_line(
                    stamp,
                    show@,
                ),
    {
        let stamp = today_stamp();
        self.append_record(stamp.as_str(), show);
        proof {
            assert(stamp_shape(stamp@));
        }
    }

    /// Records a dropped show, annotated with the episode it was dropped at,
    /// under today's date.
    pub fn drop(&mut self, latest_episode: u32, show: &str)
        ensures
            exists|stamp: Seq<char>|
                #[trigger] stamp_shape(stamp) && final(self)@ == old(self)@ + record_line(
                    stamp,
                    drop_annotation(latest_episode, show@),
                ),
    {
        let stamp = today_stamp();
        let mut text = String::from_str("(dropped at ep ");
        text.append(u64_to_string(latest_episode as u64).as_str());
        text.append(") ");
        text.append(show);
        proof {
            reveal_strlit("(dropped at ep ");
            reveal_strlit(") ");
            assert(text@ =~= drop_annotation(latest_episode, show@));
        }
        self.append_record(stamp.as_str(), text.as_str());
        proof {
            assert(stamp_shape(stamp@));
        }
    }
}

} // verus!
