# Stencil: collect flame graphs and flame charts

A flame chart shows the precise timing of each call. If function A calls function B 100 times, it
shows up in the picture as 100 separate calls. In a flame graph, on the other hand, all the calls
to B are lumped together into one span showing their total time.

`src/` is the library. It is written in Verus: what every function does is stated in its contract
and proved. It reads no clock and writes no log. What a thread records is a value
(`StencilThreadData` for flame charts, `GraphThreadData` for flame graphs), what is configured is
another (`Settings`); readings of the clock are handed in, and what is to be logged is handed
back. Closing the outermost span of a flame chart gives the records that are to be logged first, and
then the complete trace, which is handed to its handler in a second step.

| module       | what it holds                                                        |
|--------------|----------------------------------------------------------------------|
| `flamechart` | recording events: opening and closing spans, limits, what is logged  |
| `chart_laws` | what holds of flame charts as a whole                                |
| `collapse`   | events as the text that a flame graph is drawn from                  |
| `flamegraph` | counting calls by path: spans, times, the text of a flame graph      |
| `graph_laws` | what holds of flame graphs as a whole                                |
| `config`     | settings that can be made once                                       |
| `logging`    | the log records of a complete trace                                  |
| `soa`        | a vector that keeps one field of its items in an array of its own    |
| `vec_trie`   | a trie in a vector                                                   |
| `text`, `time` | pieces of text; plain-value clocks                                 |

`app/` puts the library into a running program: global settings, one trace per thread, guards that
end their span when they are dropped, the `outln!` macro, futures with a trace of their own, and
the log. Traces are logged via the `log` crate, at `warn!` level, unless a handler returns `None`.

To declare a span:

```
fn my_existing_function_related_to_kittens() {
    outln!("kittens"); // measures the span from now until it's dropped
}
```

To log flame graphs:

```
enable_flame_graph_collection(true);
set_flame_graph_handler(Box::new(|trace| {
    let flamegraph: String = as_flame_graph_input(trace).unwrap();
    Some(format!("flamegraph: {}", flamegraph)) // will be logged
}));
```

To log flame charts:

```
enable_flame_chart_collection(true);
set_flame_chart_handler(Box::new(|callsites| {
    let flamechart: String = call_sites_to_flame_chart(callsites);
    Some(format!("flamechart: {}", flamechart)) // will be logged
}));
```

The text that comes out can be made into a picture with `flamegraph.pl` from
https://github.com/brendangregg/FlameGraph:

> flamegraph.pl trace.txt > trace.svg

When collecting flame charts, there is a maximum number of events per trace, so declaring spans in
a hot loop is not recommended. Flame graphs are happy to handle hot loops, since they group all
the calls together.
