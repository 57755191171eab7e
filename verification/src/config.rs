//! Engine configuration and the layout of the data directory.
//!
//! One directory holds everything: the active file (named `file`, by default
//! `data`), sealed data files `data.<id>`, hint files `hint.<id>`, and the
//! temporary compaction directory `.merge` with its numbered work files.
//! Paths are built here as plain strings; the host turns them into whatever
//! its platform wants.

use vstd::prelude::*;

verus! {

/// The digit character for `d`; meaningful for `0 <= d <= 9`.
pub open spec fn digit_char(d: int) -> char {
    if d == 0 {
        '0'
    } else if d == 1 {
        '1'
    } else if d == 2 {
        '2'
    } else if d == 3 {
        '3'
    } else if d == 4 {
        '4'
    } else if d == 5 {
        '5'
    } else if d == 6 {
        '6'
    } else if d == 7 {
        '7'
    } else if d == 8 {
        '8'
    } else {
        '9'
    }
}

/// The decimal digits of `n`, most significant first, without a sign and
/// without leading zeros (`0` itself is the single digit `0`).
pub open spec fn dec_str(n: int) -> Seq<char>
    decreases n,
{
    if n < 10 {
        seq![digit_char(n)]
    } else {
        dec_str(n / 10).push(digit_char(n % 10))
    }
}

/// The digit character for `d` as a string slice.
fn digit_str(d: u16) -> (r: &'static str)
    requires
        d < 10,
    ensures
        r@ == seq![digit_char(d as int)],
{
    let r: &'static str = if d == 0 {
        "0"
    } else if d == 1 {
        "1"
    } else if d == 2 {
        "2"
    } else if d == 3 {
        "3"
    } else if d == 4 {
        "4"
    } else if d == 5 {
        "5"
    } else if d == 6 {
        "6"
    } else if d == 7 {
        "7"
    } else if d == 8 {
        "8"
    } else {
        "9"
    };
    proof {
        reveal_strlit("0");
        reveal_strlit("1");
        reveal_strlit("2");
        reveal_strlit("3");
        reveal_strlit("4");
        reveal_strlit("5");
        reveal_strlit("6");
        reveal_strlit("7");
        reveal_strlit("8");
        reveal_strlit("9");
        assert(r@ =~= seq![digit_char(d as int)]);
    }
    r
}

/// Formats `n` in decimal.
pub fn u16_to_dec(n: u16) -> (r: String)
    ensures
        r@ == dec_str(n as int),
    decreases n,
{
    if n < 10 {
        String::from_str(digit_str(n))
    } else {
        let mut s = u16_to_dec(n / 10);
        s.append(digit_str(n % 10));
        proof {
            assert(dec_str((n / 10) as int) + seq![digit_char((n % 10) as int)] =~= dec_str(
                (n / 10) as int,
            ).push(digit_char((n % 10) as int)));
        }
        s
    }
}

/// The engine's configuration: where the data directory lies, what the
/// active file is called, when to rotate, when to flush, and how many
/// rotations separate compaction signals.
#[derive(Clone)]
pub struct Config {
    /// The data directory's path.
    pub db_dir: String,
    /// The active file's base name.
    pub file: String,
    /// The rotation threshold in bytes.
    pub file_max_size: usize,
    /// Appends between forced flushes of the active file; `0` disables.
    pub sync_keys: u32,
    /// The frontend's listen address.
    pub address: String,
    /// The frontend's listen port.
    pub port: u32,
    /// Rotations between compaction signals.
    pub merge_file_num: usize,
}

/// The defaults the engine starts from when no setting overrides them.
pub open spec fn spec_default_config(c: Config) -> bool {
    &&& c.db_dir@ == "./dbdata"@
    &&& c.file@ == "data"@
    &&& c.file_max_size == 102400
    &&& c.sync_keys == 0
    &&& c.address@ == "127.0.0.1"@
    &&& c.port == 6380
    &&& c.merge_file_num == 10
}

impl Default for Config {
    /// The default configuration of the engine.
    fn default() -> (r: Config)
        ensures
            spec_default_config(r),
    {
        Config {
            db_dir: String::from_str("./dbdata"),
            file: String::from_str("data"),
            file_max_size: 102400,
            sync_keys: 0,
            address: String::from_str("127.0.0.1"),
            port: 6380,
            merge_file_num: 10,
        }
    }
}

impl Config {
    /// The default configuration.
    pub fn new() -> (r: Config)
        ensures
            spec_default_config(r),
    {
        Config::default()
    }

    /// The frontend's listen address and port.
    pub fn get_addr_port(&self) -> (r: (String, u32))
        ensures
            r.0@ == self.address@,
            r.1 == self.port,
    {
        (self.address.clone(), self.port)
    }

    /// The active file's base name.
    pub fn file(&self) -> (r: &String)
        ensures
            r@ == self.file@,
    {
        &self.file
    }

    /// The data directory's path.
    pub fn data_dir(&self) -> (r: &String)
        ensures
            r@ == self.db_dir@,
    {
        &self.db_dir
    }

    /// The path of the temporary compaction directory.
    pub open spec fn spec_merge_dir(&self) -> Seq<char> {
        self.db_dir@ + seq!['/', '.', 'm', 'e', 'r', 'g', 'e']
    }

    /// The path of the temporary compaction directory, `<db_dir>/.merge`.
    pub fn merge_dir(&self) -> (r: String)
        ensures
            r@ == self.spec_merge_dir(),
    {
        let mut s = self.db_dir.clone();
        s.append("/.merge");
        proof {
            reveal_strlit("/.merge");
            assert(s@ =~= self.spec_merge_dir());
        }
        s
    }

    /// The path of compaction work file `idx`.
    pub open spec fn spec_merge_filepath(&self, idx: u16) -> Seq<char> {
        self.spec_merge_dir() + seq!['/'] + dec_str(idx as int)
    }

    /// The path of compaction work file `idx`, `<db_dir>/.merge/<idx>`.
    pub fn get_merge_filepath_by_seq(&self, idx: u16) -> (r: String)
        ensures
            r@ == self.spec_merge_filepath(idx),
    {
        let mut s = self.merge_dir();
        s.append("/");
        let d = u16_to_dec(idx);
        s.append(d.as_str());
        proof {
            reveal_strlit("/");
            assert(s@ =~= self.spec_merge_filepath(idx));
        }
        s
    }

    /// The path of the hint work file paired with compaction work file
    /// `idx`.
    pub open spec fn spec_merge_hint_filepath(&self, idx: u16) -> Seq<char> {
        self.spec_merge_filepath(idx) + seq!['.', 'h', 'i', 'n', 't']
    }

    /// The path of the hint work file paired with compaction work file
    /// `idx`, `<db_dir>/.merge/<idx>.hint`.
    pub fn get_merge_hint_filepath_by_seq(&self, idx: u16) -> (r: String)
        ensures
            r@ == self.spec_merge_hint_filepath(idx),
    {
        let mut s = self.get_merge_filepath_by_seq(idx);
        s.append(".hint");
        proof {
            reveal_strlit(".hint");
            assert(s@ =~= self.spec_merge_hint_filepath(idx));
        }
        s
    }

    /// The path of the hint file paired with sealed data file `idx`.
    pub open spec fn spec_hint_filepath(&self, idx: u16) -> Seq<char> {
        self.db_dir@ + seq!['/', 'h', 'i', 'n', 't', '.'] + dec_str(idx as int)
    }

    /// The path of the hint file paired with sealed data file `idx`,
    /// `<db_dir>/hint.<idx>`.
    pub fn get_hint_filepath_by_seq(&self, idx: u16) -> (r: String)
        ensures
            r@ == self.spec_hint_filepath(idx),
    {
        let mut s = self.db_dir.clone();
        s.append("/hint.");
        let d = u16_to_dec(idx);
        s.append(d.as_str());
        proof {
            reveal_strlit("/hint.");
            assert(s@ =~= self.spec_hint_filepath(idx));
        }
        s
    }

    /// The rotation threshold in bytes.
    pub fn file_max_size(&self) -> (r: usize)
        ensures
            r == self.file_max_size,
    {
        self.file_max_size
    }

    /// The path of sealed data file `idx`.
    pub open spec fn spec_filepath(&self, idx: u16) -> Seq<char> {
        self.db_dir@ + seq!['/'] + self.file@ + seq!['.'] + dec_str(idx as int)
    }

    /// The path of sealed data file `idx`, `<db_dir>/<file>.<idx>`.
    pub fn get_filepath_by_seq(&self, idx: u16) -> (r: String)
        ensures
            r@ == self.spec_filepath(idx),
    {
        let mut s = self.db_dir.clone();
        s.append("/");
        s.append(self.file.as_str());
        s.append(".");
        let d = u16_to_dec(idx);
        s.append(d.as_str());
        proof {
            reveal_strlit("/");
            reveal_strlit(".");
            assert(s@ =~= self.spec_filepath(idx));
        }
        s
    }

    /// The active file's path.
    pub open spec fn spec_active_filepath(&self) -> Seq<char> {
        self.db_dir@ + seq!['/'] + self.file@
    }

    /// The active file's path, `<db_dir>/<file>`.
    pub fn get_active_filepath(&self) -> (r: String)
        ensures
            r@ == self.spec_active_filepath(),
    {
        let mut s = self.db_dir.clone();
        s.append("/");
        s.append(self.file.as_str());
        proof {
            reveal_strlit("/");
            assert(s@ =~= self.spec_active_filepath());
        }
        s
    }

    /// The path the data file with sequence number `seq` would get.
    pub fn get_next_datafile(&self, seq: u16) -> (r: String)
        ensures
            r@ == self.spec_filepath(seq),
    {
        self.get_filepath_by_seq(seq)
    }

    /// Rotations between compaction signals.
    pub fn get_merge_file_num(&self) -> (r: usize)
        ensures
            r == self.merge_file_num,
    {
        self.merge_file_num
    }

    /// Appends between forced flushes of the active file; `0` disables.
    pub fn get_sync_keys_num(&self) -> (r: u32)
        ensures
            r == self.sync_keys,
    {
        self.sync_keys
    }
}

} // verus!
