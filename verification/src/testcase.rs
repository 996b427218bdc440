//! The text of one test case: the names of its input and output files and
//! what is to be written into them.

use vstd::prelude::*;
use vstd::string::StringExecFns;

verus! {

/// One test case. The file names follow the prefix and the suffixes until
/// they are set by hand; the contents grow by the `write` methods.
pub struct Testcase {
    pub input_file: String,
    pub output_file: String,
    pub io_prefix: String,
    pub input_subfix: String,
    pub output_subfix: String,
    pub input_content: String,
    pub output_content: String,
}

/// `prefix`, a dot and `suffix`.
pub open spec fn file_name(prefix: Seq<char>, suffix: Seq<char>) -> Seq<char> {
    prefix + "."@ + suffix
}

fn dotted(prefix: &String, suffix: &str) -> (name: String)
    ensures
        name@ == file_name(prefix@, suffix@),
{
    let mut name = prefix.clone();
    name.append(".");
    name.append(suffix);
    name
}

impl Testcase {
    /// A test case whose files are `io_prefix` with the suffixes `in` and
    /// `out`, with nothing to write yet.
    pub fn new(io_prefix: String) -> (t: Testcase)
        ensures
            t.io_prefix@ == io_prefix@,
            t.input_subfix@ == "in"@,
            t.output_subfix@ == "out"@,
            t.input_file@ == file_name(io_prefix@, "in"@),
            t.output_file@ == file_name(io_prefix@, "out"@),
            t.input_content@ == Seq::<char>::empty(),
            t.output_content@ == Seq::<char>::empty(),
    {
        Testcase {
            input_file: dotted(&io_prefix, "in"),
            output_file: dotted(&io_prefix, "out"),
            io_prefix,
            input_subfix: String::from_str("in"),
            output_subfix: String::from_str("out"),
            input_content: String::new(),
            output_content: String::new(),
        }
    }

    /// Names the input file, whatever the prefix and the suffix say.
    pub fn input_file(&mut self, input_file: String) -> (next: &mut Self)
        ensures
            *next == (Testcase { input_file, ..*old(self) }),
            *final(self) == *final(next),
    {
        self.input_file = input_file;
        self
    }

    /// Names the output file, whatever the prefix and the suffix say.
    pub fn output_file(&mut self, output_file: String) -> (next: &mut Self)
        ensures
            *next == (Testcase { output_file, ..*old(self) }),
            *final(self) == *final(next),
    {
        self.output_file = output_file;
        self
    }

    /// Sets the prefix; the file names stay as they are.
    pub fn io_prefix(&mut self, io_prefix: String) -> (next: &mut Self)
        ensures
            *next == (Testcase { io_prefix, ..*old(self) }),
            *final(self) == *final(next),
    {
        self.io_prefix = io_prefix;
        self
    }

    /// Sets the suffix of the input file and names that file after the
    /// prefix and the new suffix.
    pub fn input_subfix(&mut self, input_subfix: String) -> (next: &mut Self)
        ensures
            next.input_subfix@ == input_subfix@,
            next.input_file@ == file_name(old(self).io_prefix@, input_subfix@),
            next.output_file == old(self).output_file,
            next.io_prefix == old(self).io_prefix,
            next.output_subfix == old(self).output_subfix,
            next.input_content == old(self).input_content,
            next.output_content == old(self).output_content,
            *final(self) == *final(next),
    {
        self.input_file = dotted(&self.io_prefix, input_subfix.as_str());
        self.input_subfix = input_subfix;
        self
    }

    /// Sets the suffix of the output file and names that file after the
    /// prefix and the new suffix.
    pub fn output_subfix(&mut self, output_subfix: String) -> (next: &mut Self)
        ensures
            next.output_subfix@ == output_subfix@,
            next.output_file@ == file_name(old(self).io_prefix@, output_subfix@),
            next.input_file == old(self).input_file,
            next.io_prefix == old(self).io_prefix,
            next.input_subfix == old(self).input_subfix,
            next.input_content == old(self).input_content,
            next.output_content == old(self).output_content,
            *final(self) == *final(next),
    {
        self.output_file = dotted(&self.io_prefix, output_subfix.as_str());
        self.output_subfix = output_subfix;
        self
    }

    /// Adds `s` to what goes into the input file.
    pub fn input_write(&mut self, s: &str) -> (next: &mut Self)
        ensures
            next.input_content@ == old(self).input_content@ + s@,
            next.output_content == old(self).output_content,
            next.input_file == old(self).input_file,
            next.output_file == old(self).output_file,
            next.io_prefix == old(self).io_prefix,
            next.input_subfix == old(self).input_subfix,
            next.output_subfix == old(self).output_subfix,
            *final(self) == *final(next),
    {
        self.input_content.append(s);
        self
    }

    /// Adds `s` to what goes into the output file.
    pub fn output_write(&mut self, s: &str) -> (next: &mut Self)
        ensures
            next.output_content@ == old(self).output_content@ + s@,
            next.input_content == old(self).input_content,
            next.input_file == old(self).input_file,
            next.output_file == old(self).output_file,
            next.io_prefix == old(self).io_prefix,
            next.input_subfix == old(self).input_subfix,
            next.output_subfix == old(self).output_subfix,
            *final(self) == *final(next),
    {
        self.output_content.append(s);
        self
    }

    /// Adds `s` and a line break to what goes into the input file.
    pub fn input_writeln(&mut self, s: &str) -> (next: &mut Self)
        ensures
            next.input_content@ == old(self).input_content@ + s@ + "\n"@,
            next.output_content == old(self).output_content,
            next.input_file == old(self).input_file,
            next.output_file == old(self).output_file,
            next.io_prefix == old(self).io_prefix,
            next.input_subfix == old(self).input_subfix,
            next.output_subfix == old(self).output_subfix,
            *final(self) == *final(next),
    {
        self.input_content.append(s);
        self.input_content.append("\n");
        self
    }

    /// Adds `s` and a line break to what goes into the output file.
    pub fn output_writeln(&mut self, s: &str) -> (next: &mut Self)
        ensures
            next.output_content@ == old(self).output_content@ + s@ + "\n"@,
            next.input_content == old(self).input_content,
            next.input_file == old(self).input_file,
            next.output_file == old(self).output_file,
            next.io_prefix == old(self).io_prefix,
            next.input_subfix == old(self).input_subfix,
            next.output_subfix == old(self).output_subfix,
            *final(self) == *final(next),
    {
        self.output_content.append(s);
        self.output_content.append("\n");
        self
    }
}

} // verus!
