use vstd::prelude::*;

verus! {

/// The argument that stands for the file the target reads its input from.
pub open spec fn file_marker() -> Seq<char> {
    "@@"@
}

/// Some argument is the input file marker.
pub open spec fn uses_input_file(args: Seq<Seq<char>>) -> bool {
    exists|i: int| 0 <= i < args.len() && #[trigger] args[i] == file_marker()
}

/// Where the target's input goes: the given input file when the arguments
/// name it, otherwise the `.stdin` file of the output directory, which is
/// fed to the target's standard input.
pub open spec fn input_path_for(
    args: Seq<Seq<char>>,
    output_dir: Seq<char>,
    input_file: Seq<char>,
) -> Seq<char> {
    if uses_input_file(args) {
        input_file
    } else {
        output_dir + "/.stdin"@
    }
}

/// The command line that runs the target: the coverage tracer next to the
/// fuzzer, then the target's arguments with the marker replaced by the
/// input path.
pub open spec fn command_for(
    args: Seq<Seq<char>>,
    output_dir: Seq<char>,
    input_file: Seq<char>,
    path_base: Seq<char>,
) -> Seq<Seq<char>> {
    let input = input_path_for(args, output_dir, input_file);
    seq![path_base + "/qemu-trace-coverage"@] + args.map_values(
        |a: Seq<char>|
            if a == file_marker() {
                input
            } else {
                a
            },
    )
}

/// The command line starts with the coverage tracer and then holds every
/// argument in its place. Wherever an argument is the marker, at any
/// position, the input goes to the given input file and the marker is
/// replaced by that file; every other argument is kept as it is. Only when
/// no argument is the marker does the input go to the `.stdin` file of the
/// output directory.
pub proof fn lemma_target_command(
    args: Seq<Seq<char>>,
    output_dir: Seq<char>,
    input_file: Seq<char>,
    path_base: Seq<char>,
)
    ensures
        ({
            let cmd = command_for(args, output_dir, input_file, path_base);
            let input = input_path_for(args, output_dir, input_file);
            &&& cmd.len() == args.len() + 1
            &&& cmd[0] == path_base + "/qemu-trace-coverage"@
            &&& forall|i: int|
                0 <= i < args.len() && #[trigger] args[i] == file_marker() ==> input == input_file
                    && cmd[i + 1] == input_file
            &&& forall|i: int|
                0 <= i < args.len() && #[trigger] args[i] != file_marker() ==> cmd[i + 1]
                    == args[i]
            &&& (forall|i: int| 0 <= i < args.len() ==> #[trigger] args[i] != file_marker())
                ==> input == output_dir + "/.stdin"@
        }),
{
    let cmd = command_for(args, output_dir, input_file, path_base);
    assert forall|i: int| 0 <= i < args.len() implies cmd[i + 1] == (if args[i] == file_marker() {
        input_path_for(args, output_dir, input_file)
    } else {
        args[i]
    }) by {}
}

/// Builds the command line that runs the target, and the path its input
/// is written to (see `command_for` and `input_path_for`).
pub fn target_command(args: &Vec<String>, output_dir: &str, input_file: &str, path_base: &str) -> (r:
    (Vec<String>, String))
    ensures
        r.0.deep_view() == command_for(args.deep_view(), output_dir@, input_file@, path_base@),
        r.1@ == input_path_for(args.deep_view(), output_dir@, input_file@),
{
    let ghost a = args.deep_view();
    let marker = String::from_str("@@");
    let mut found = false;
    let mut i: usize = 0;
    while i < args.len()
        invariant
            i <= args@.len(),
            a == args.deep_view(),
            marker@ == file_marker(),
            found <==> exists|j: int| 0 <= j < i && #[trigger] a[j] == file_marker(),
        decreases args@.len() - i,
    {
        if args[i] == marker {
            found = true;
        }
        proof {
            assert(a[i as int] == args@[i as int]@);
        }
        i = i + 1;
    }
    let input: String = if found {
        String::from_str(input_file)
    } else {
        String::from_str(output_dir).concat("/.stdin")
    };
    assert(input@ == input_path_for(a, output_dir@, input_file@));
    let mut out: Vec<String> = Vec::new();
    out.push(String::from_str(path_base).concat("/qemu-trace-coverage"));
    let mut k: usize = 0;
    while k < args.len()
        invariant
            k <= args@.len(),
            a == args.deep_view(),
            marker@ == file_marker(),
            input@ == input_path_for(a, output_dir@, input_file@),
            out.deep_view() == command_for(a, output_dir@, input_file@, path_base@).subrange(
                0,
                k + 1,
            ),
        decreases args@.len() - k,
    {
        let item: String = if args[k] == marker {
            input.clone()
        } else {
            args[k].clone()
        };
        let ghost before = out.deep_view();
        out.push(item);
        proof {
            assert(a[k as int] == args@[k as int]@);
            assert(out.deep_view() =~= before.push(item@));
            assert(command_for(a, output_dir@, input_file@, path_base@).subrange(0, k + 2)
                =~= command_for(a, output_dir@, input_file@, path_base@).subrange(0, k + 1).push(
                item@,
            ));
        }
        k = k + 1;
    }
    assert(command_for(a, output_dir@, input_file@, path_base@).subrange(0, args@.len() as int + 1)
        =~= command_for(a, output_dir@, input_file@, path_base@));
    (out, input)
}

} // verus!
