use vstd::prelude::*;

verus! {

/// What `Path::parent` gives for a path: the path without its last
/// component, or nothing for a root or an empty path.
pub uninterp spec fn parent_of(path: Seq<char>) -> Option<Seq<char>>;

/// Relies on `std::path::Path::parent` for the directory that holds `path`.
#[verifier::external_body]
fn parent_dir(path: &str) -> (r: Option<String>)
    ensures
        r matches Some(s) ==> parent_of(path@) == Some(s@),
        r is None ==> parent_of(path@) is None,
{
    std::path::Path::new(path).parent().map(|p| p.to_string_lossy().into_owned())
}

/// The decimal digit `d`.
pub open spec fn digit(d: nat) -> char {
    seq!['0', '1', '2', '3', '4', '5', '6', '7', '8', '9'][d as int]
}

/// The decimal digits of `n`.
pub open spec fn decimal(n: nat) -> Seq<char>
    decreases n,
{
    if n < 10 {
        seq![digit(n)]
    } else {
        decimal(n / 10).push(digit(n % 10))
    }
}

/// Relies on `format!` with `{}`: the decimal digits of `n`.
#[verifier::external_body]
pub(crate) fn number_text(n: usize) -> (r: String)
    ensures
        r@ == decimal(n as nat),
{
    format!("{}", n)
}

/// `n` in decimal, with a leading zero below ten.
pub open spec fn two_digits(n: nat) -> Seq<char> {
    if n < 10 {
        seq!['0', digit(n)]
    } else {
        decimal(n)
    }
}

/// Relies on `format!` with `{:02}`: decimal digits, zero-padded to a width of two.
#[verifier::external_body]
fn padded_number(n: usize) -> (r: String)
    ensures
        r@ == two_digits(n as nat),
{
    format!("{:02}", n)
}

/// `name` inside directory `base`.
pub open spec fn joined_path(base: Seq<char>, name: Seq<char>) -> Seq<char> {
    if base.len() == 0 {
        name
    } else if base.last() == '/' {
        base + name
    } else {
        base + seq!['/'] + name
    }
}

fn join_path(base: &String, name: &str) -> (r: String)
    ensures
        r@ == joined_path(base@, name@),
{
    proof {
        reveal_strlit("/");
    }
    let n = base.as_str().unicode_len();
    if n == 0 {
        return name.to_owned();
    }
    let last = base.as_str().get_char(n - 1);
    let mut out = base.clone();
    if last != '/' {
        out.append("/");
    }
    out.append(name);
    out
}

fn concat3(a: &str, b: &str, c: &str) -> (r: String)
    ensures
        r@ == a@ + b@ + c@,
{
    let mut out = a.to_owned();
    out.append(b);
    out.append(c);
    out
}

/// Where the files of the computation live, relative to the dictionary
/// directory: an `output` directory beside it holds everything written.
pub struct RelativeDirectories {
    dictionary_directory: String,
    output_directory: String,
}

impl RelativeDirectories {
    pub closed spec fn dictionary_spec(&self) -> Seq<char> {
        self.dictionary_directory@
    }

    pub closed spec fn output_spec(&self) -> Seq<char> {
        self.output_directory@
    }

    /// The layout for a dictionary directory, or `None` where that
    /// directory has no parent (a root or an empty path).
    pub fn new(dictionary_directory: String) -> (r: Option<Self>)
        ensures
            r is Some <==> parent_of(dictionary_directory@) is Some,
            r matches Some(d) ==> d.dictionary_spec() == dictionary_directory@ && d.output_spec()
                == joined_path(parent_of(dictionary_directory@)->0, "output"@),
    {
        match parent_dir(dictionary_directory.as_str()) {
            Some(parent) => {
                let output_directory = join_path(&parent, "output");
                Some(RelativeDirectories { dictionary_directory, output_directory })
            },
            None => None,
        }
    }

    /// Returns the dictionary directory that serves as the base directory.
    pub fn dictionary_directory(&self) -> (r: String)
        ensures
            r@ == self.dictionary_spec(),
    {
        self.dictionary_directory.clone()
    }

    /// Returns the directory into which output results are to be stored.
    pub fn output_directory(&self) -> (r: String)
        ensures
            r@ == self.output_spec(),
    {
        self.output_directory.clone()
    }

    /// Returns the filename of the corpus file.
    pub fn corpus_file(&self) -> (r: String)
        ensures
            r@ == joined_path(self.output_spec(), "corpus.txt"@),
    {
        join_path(&self.output_directory, "corpus.txt")
    }

    /// Returns the name of the 'all adjacencies' file for a word length.
    pub fn all_adjacency_file(&self, word_length: usize) -> (r: String)
        ensures
            r@ == joined_path(
                self.output_spec(),
                "all_adjacency_lists_"@ + two_digits(word_length as nat) + ".txt"@,
            ),
    {
        let n = padded_number(word_length);
        let name = concat3("all_adjacency_lists_", n.as_str(), ".txt");
        join_path(&self.output_directory, name.as_str())
    }

    /// Returns the name of the file which holds the adjacency lists of the
    /// largest component for a word length.
    pub fn largest_component_adjacency_file(&self, word_length: usize) -> (r: String)
        ensures
            r@ == joined_path(
                self.output_spec(),
                "largest_component_adjacency_lists_"@ + two_digits(word_length as nat) + ".txt"@,
            ),
    {
        let n = padded_number(word_length);
        let name = concat3("largest_component_adjacency_lists_", n.as_str(), ".txt");
        join_path(&self.output_directory, name.as_str())
    }

    /// Returns the name of the file which holds the word length statistics.
    pub fn word_stats_file(&self) -> (r: String)
        ensures
            r@ == joined_path(self.output_spec(), "word_stats.csv"@),
    {
        join_path(&self.output_directory, "word_stats.csv")
    }

    /// Returns the name of the 'chains' directory for a word length.
    pub fn chains_directory(&self, word_length: usize) -> (r: String)
        ensures
            r@ == joined_path(self.output_spec(), "chains_"@ + two_digits(word_length as nat)),
    {
        let n = padded_number(word_length);
        let name = concat3("chains_", n.as_str(), "");
        proof {
            reveal_strlit("");
        }
        assert(name@ =~= "chains_"@ + two_digits(word_length as nat));
        join_path(&self.output_directory, name.as_str())
    }

    /// Returns the name of the chain file of `word`, in the chains
    /// directory of its length.
    pub fn chain_file(&self, word: &str) -> (r: String)
        ensures
            r@ == joined_path(
                joined_path(self.output_spec(), "chains_"@ + two_digits(word@.len())),
                word@ + ".txt"@,
            ),
    {
        let dir = self.chains_directory(word.unicode_len());
        let name = concat3(word, ".txt", "");
        proof {
            reveal_strlit("");
        }
        assert(name@ =~= word@ + ".txt"@);
        join_path(&dir, name.as_str())
    }
}

} // verus!
