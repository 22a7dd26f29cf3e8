use grotsky::compiler::Compiler;
use grotsky::pipeline::{compile_source, program_instructions, SourceError};

fn compiles(source: &str) -> usize {
    let mut compiler = Compiler::new();
    match compile_source(&mut compiler, source.to_string()) {
        Ok(()) => program_instructions(&compiler).len(),
        Err(e) => panic!("{:?}", e),
    }
}

#[test]
fn program_hello_world_compiles() {
    let source = "io.println(\"Hello world!\")
";
    assert!(compiles(source) > 0);
}

#[test]
fn program_comments_compiles() {
    let source = "let a = 1 # Comments start with '#'
io.println(a) # and go on to the end of the line
";
    assert!(compiles(source) > 0);
}

#[test]
fn program_of_a_lone_comment_line_is_refused() {
    let mut compiler = Compiler::new();
    match compile_source(&mut compiler, "# Comments start with '#'\n".to_string()) {
        Err(SourceError::Syntax(errors)) => {
            assert_eq!(errors.len(), 1);
            assert_eq!(errors[0].message, "Expected new line");
        }
        _ => panic!("a lone comment line is not a program"),
    }
}

#[test]
fn program_arithmetic_expressions_compiles() {
    let source = "io.println(
    1+(2+5*10)/2,
    2^4
)
";
    assert!(compiles(source) > 0);
}

#[test]
fn program_comparison_and_logical_expressions_compiles() {
    let source = "io.println(
    true and (false or true),
    1 > 2 and 5 <= 10
)
";
    assert!(compiles(source) > 0);
}

#[test]
fn program_lists_compiles() {
    let source = "let list = [
    \"a\",
    \"b\",
    \"c\",
    \"d\",
    \"e\"
]

io.println(list)
";
    assert!(compiles(source) > 0);
}

#[test]
fn program_dicts_compiles() {
    let source = "let dict = {
    \"a\": 1,
    \"b\": 2,
    \"c\": 3
}

io.println(dict)
";
    assert!(compiles(source) > 0);
}

#[test]
fn program_conditionals_compiles() {
    let source = "let a = 10
if a > 10 {
    io.println(\"a is bigger than ten\")
} elif a > 5 {
    io.println(\"a is less than or equal to ten and bigger than five\")
} else {
    io.println(\"a is less than or equal to five\")
}
";
    assert!(compiles(source) > 0);
}

#[test]
fn program_classic_for_loop_compiles() {
    let source = "let list = []
for let i = 0; i < 10; i = i + 1 {
    list = list + [i]
}
io.println(list)
";
    assert!(compiles(source) > 0);
}

#[test]
fn program_iterate_list_compiles() {
    let source = "let list = [0, 1, 2, 3, 4]
for i in list {
    io.println(i)
}
";
    assert!(compiles(source) > 0);
}

#[test]
fn program_iterate_dict_compiles() {
    let source = "let dict = {
    \"a\": 1,
    \"b\": 2,
    \"c\": 3
}
for k, v in dict {
    io.println(k, v)
}
";
    assert!(compiles(source) > 0);
}

#[test]
fn program_unpacked_list_of_lists_compiles() {
    let source = "let listOfLists = [
    [\"a\", 1, 3],
    [\"b\", 2, 4],
    [\"c\", 3, 5]
]
for x, y, z in listOfLists {
    io.println(x, y, z)
}
";
    assert!(compiles(source) > 0);
}

#[test]
fn program_functions_and_closures_compiles() {
    let source = "fn makeCounter() {
    let n = -1
    fn wrap() {
        n = n + 1
        return n
    }
    return wrap
}

let counter = makeCounter()

io.println(counter())
io.println(counter())
io.println(counter())
";
    assert!(compiles(source) > 0);
}

#[test]
fn program_simple_class_compiles() {
    let source = "class A {
    init(n) {
        this.n = n
    }

    print() {
        io.println(\"N:\", this.n)
    }
}

let a = A(10)
a.print()
";
    assert!(compiles(source) > 0);
}

#[test]
fn program_superclasses_compiles() {
    let source = "class A {
    print() {
        io.println(\"Printing:\", this.text)
    }

    appendToText(text) {
        this.text = this.text + text
    }
}

class B < A { # Inherits from A
    init() {
        this.text = \"\"
    }

    appendToText(text) {
        if this.text.length + text.length < 5 {
            super.appendToText(text) # Call to method on superclass
        }
    }
}

let b = B()
b.appendToText(\"Hello!\") # str.length > 5
b.print()
b.appendToText(\"Hell\")
b.print()
";
    assert!(compiles(source) > 0);
}

#[test]
fn program_magic_methods_compiles() {
    let source = "class Magic {
    init(value) {
        this.value = value
    }

    add(other) {
        # Addition as in result = this + other
        this.value = this.value + other.value
    }

    print() {
        io.println(\"Magic is:\", this.value)
    }
}

let a = Magic(1)
a + Magic(2)
a.print()
";
    assert!(compiles(source) > 0);
}

#[test]
fn program_module_definition_compiles() {
    let source = "fn map(list, mapFn) {
    let out = []
    for e in list {
        out = out + [mapFn(e)]
    }
    return out
}
";
    assert!(compiles(source) > 0);
}

#[test]
fn program_module_import_compiles() {
    let source = "let utils = import(\"utils.gr\")
let list = [0, 1, 2, 3, 4]
io.println(utils.map(list, fn (e) 2 ^ e))
";
    assert!(compiles(source) > 0);
}

#[test]
fn program_tcp_socket_compiles() {
    let source = "let socket = net.listenTcp(\"127.0.0.1\", \"6500\")
while true {
    let conn = socket.accept()
    io.println(\"Received connection from:\", conn.address())
    conn.write(\"ok\\n\")
    conn.close()
}
";
    assert!(compiles(source) > 0);
}

#[test]
fn program_env_variables_compiles() {
    let source = "let lang = env.Get(\"LANG\")
io.println(lang)
";
    assert!(compiles(source) > 0);
}

#[test]
fn program_try_catch_compiles() {
    let source = "try {
    let utils = import(\"utils.gr\")
} catch err {
    io.println(err)
}
";
    assert!(compiles(source) > 0);
}
