pub mod dijkstra;
